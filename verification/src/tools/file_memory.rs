//! Memory in plain text files: which names are safe, and what the memory
//! tools report.
use crate::text::{
    begins, byte_len, chars_of, dec, ends, fmt_u64, join_path, law_split_at_separator, lemma_shows,
    lemma_shows_itself, lemma_views_push, opt_view, owned, path_below, same, shows, split_at_char,
    split_char, string_of, trim, trimmed, views,
};
use crate::tools::registry::{
    fail, failed, missing, ok_text, outcome, text_output, ToolError, ToolOutput,
};
use vstd::prelude::*;
use vstd::utf8::*;

verus! {

/// Whether a character separates the components of a name.
pub open spec fn is_separator(c: char) -> bool {
    c == '/' || c == '\\'
}

/// Whether a component of a name is safe: it is not empty, not hidden, and
/// has no control characters.
pub open spec fn safe_component(s: Seq<char>) -> bool {
    &&& s.len() > 0
    &&& s[0] != '.'
    &&& forall|i: int| 0 <= i < s.len() ==> #[trigger] s[i] as u32 >= 0x20
}

/// The state of a split into components: whether all closed ones are safe,
/// and the open one.
pub open spec fn component_scan(s: Seq<char>) -> (bool, Seq<char>)
    decreases s.len(),
{
    if s.len() == 0 {
        (true, seq![])
    } else {
        let (ok, open) = component_scan(s.drop_last());
        if is_separator(s.last()) {
            (ok && safe_component(open), seq![])
        } else {
            (ok, open.push(s.last()))
        }
    }
}

/// Whether a text has two dots in a row.
pub open spec fn has_dots(s: Seq<char>) -> bool {
    exists|i: int| 0 <= i && i + 1 < s.len() && #[trigger] s[i] == '.' && s[i + 1] == '.'
}

/// Whether a name stays within the memory's directory: it is not empty and
/// not overlong, not absolute, without a drive, without two dots in a row,
/// and all of its components are safe.
pub open spec fn safe_name(s: Seq<char>) -> bool {
    let bytes = encode_utf8(s);
    let (ok, open) = component_scan(s);
    &&& 0 < bytes.len() <= 512
    &&& !is_separator(s[0])
    &&& !(bytes.len() >= 2 && bytes[1] == 0x3a)
    &&& !has_dots(s)
    &&& ok
    &&& safe_component(open)
}

/// A safe name is no absolute path and has no `..` in it.
pub proof fn law_safe_names_do_not_escape(s: Seq<char>)
    requires
        safe_name(s),
    ensures
        s.len() > 0,
        s[0] != '/' && s[0] != '\\' && s[0] != '.',
        !has_dots(s),
{
    if s.len() == 0 {
        assert(component_scan(s).1.len() == 0);
    }
    lemma_first_component(s);
}

proof fn lemma_first_component(s: Seq<char>)
    requires
        s.len() > 0,
        !is_separator(s[0]),
        component_scan(s).0,
        safe_component(component_scan(s).1) || exists|i: int|
            0 <= i < s.len() && is_separator(#[trigger] s[i]),
    ensures
        s[0] != '.',
    decreases s.len(),
{
    let d = s.drop_last();
    let (ok, open) = component_scan(d);
    if is_separator(s.last()) {
        assert(safe_component(open));
        lemma_first_component(d);
    } else if exists|i: int| 0 <= i < d.len() && is_separator(#[trigger] d[i]) {
        lemma_first_component(d);
    } else {
        assert(safe_component(component_scan(s).1)) by {
            if exists|i: int| 0 <= i < s.len() && is_separator(#[trigger] s[i]) {
                let i = choose|i: int| 0 <= i < s.len() && is_separator(#[trigger] s[i]);
                assert(d[i] == s[i]);
            }
        }
        assert forall|i: int| 0 <= i < s.len() implies !is_separator(#[trigger] s[i]) by {
            if i < d.len() {
                assert(d[i] == s[i]);
            }
        }
        lemma_open_is_all(s);
    }
}

proof fn lemma_open_is_all(s: Seq<char>)
    requires
        forall|i: int| 0 <= i < s.len() ==> !is_separator(#[trigger] s[i]),
    ensures
        component_scan(s).1 == s,
    decreases s.len(),
{
    if s.len() > 0 {
        let d = s.drop_last();
        assert forall|i: int| 0 <= i < d.len() implies !is_separator(#[trigger] d[i]) by {
            assert(d[i] == s[i]);
        }
        lemma_open_is_all(d);
        assert(!is_separator(s[s.len() - 1]));
        assert(d.push(s.last()) =~= s);
    } else {
        assert(s =~= seq![]);
    }
}

fn component_ok(v: &Vec<char>, from: usize, to: usize) -> (r: bool)
    requires
        from <= to <= v@.len(),
    ensures
        r == safe_component(v@.subrange(from as int, to as int)),
{
    let ghost w = v@.subrange(from as int, to as int);
    if from == to || v[from] == '.' {
        return false;
    }
    let mut i: usize = from;
    while i < to
        invariant
            from <= i <= to <= v@.len(),
            w == v@.subrange(from as int, to as int),
            forall|k: int| 0 <= k < i - from ==> #[trigger] w[k] as u32 >= 0x20,
        decreases to - i,
    {
        proof {
            assert(w[i - from] == v@[i as int]);
        }
        if (v[i] as u32) < 0x20 {
            return false;
        }
        i = i + 1;
    }
    true
}

/// Whether a name stays within the memory's directory.
pub fn name_is_safe(name: &str) -> (r: bool)
    ensures
        r == safe_name(name@),
{
    let v: Vec<char> = chars_of(name);
    let n: usize = v.len();
    let bytes: &[u8] = name.as_bytes();
    let len: usize = bytes.len();
    if len == 0 || len > 512 {
        return false;
    }
    if n == 0 {
        proof {
            assert(component_scan(name@).1.len() == 0);
        }
        return false;
    }
    if v[0] == '/' || v[0] == '\\' {
        return false;
    }
    if len >= 2 && bytes[1] == 0x3a {
        return false;
    }
    let mut start: usize = 0;
    let mut ok: bool = true;
    let mut dots: bool = false;
    proof {
        assert(v@.subrange(0, 0) =~= seq![]);
    }
    for i in 0..n
        invariant
            n == v@.len(),
            start <= i,
            (ok, v@.subrange(start as int, i as int)) == component_scan(v@.take(i as int)),
            dots == exists|k: int|
                0 <= k && k + 1 < i && #[trigger] v@[k] == '.' && v@[k + 1] == '.',
    {
        let c: char = v[i];
        proof {
            assert(v@.take(i + 1).drop_last() =~= v@.take(i as int));
            assert(v@.take(i + 1).last() == c);
        }
        if i > 0 && c == '.' && v[i - 1] == '.' {
            dots = true;
            proof {
                assert(v@[i - 1] == '.' && v@[(i - 1) + 1] == '.');
            }
        }
        if c == '/' || c == '\\' {
            let good: bool = component_ok(&v, start, i);
            ok = ok && good;
            start = i + 1;
            proof {
                assert(v@.subrange(i + 1, i + 1) =~= seq![]);
            }
        } else {
            proof {
                assert(v@.subrange(start as int, i + 1) =~= v@.subrange(
                    start as int,
                    i as int,
                ).push(c));
            }
        }
    }
    proof {
        assert(v@.take(n as int) =~= v@);
        assert(dots == has_dots(name@));
    }
    ok && !dots && component_ok(&v, start, n)
}

/// The first line that holds more than white space, at most `max` characters
/// of it without the white space at its ends.
pub open spec fn first_line(lines: Seq<Seq<char>>, max: nat) -> Seq<char>
    decreases lines.len(),
{
    if lines.len() == 0 {
        seq![]
    } else {
        let t = trimmed(lines[0]);
        if t.len() == 0 {
            first_line(lines.skip(1), max)
        } else if t.len() > max {
            t.take(max as int) + "..."@
        } else {
            t
        }
    }
}

/// The summary of a memory: its first line that holds anything.
pub fn first_non_empty_line(text: &str, max_chars: usize) -> (r: String)
    ensures
        r@ == first_line(split_at_char(text@, '\n'), max_chars as nat),
{
    let lines: Vec<String> = split_char(text, '\n');
    let ghost lv = views(lines@);
    proof {
        assert(lv.skip(0) =~= lv);
    }
    for i in 0..lines.len()
        invariant
            lv == views(lines@),
            lv == split_at_char(text@, '\n'),
            first_line(lv, max_chars as nat) == first_line(lv.skip(i as int), max_chars as nat),
    {
        let t: String = trim(lines[i].as_str());
        proof {
            assert(lv.skip(i as int)[0] == lines@[i as int]@);
            assert(lv.skip(i as int).skip(1) =~= lv.skip(i + 1));
        }
        let v: Vec<char> = chars_of(t.as_str());
        if v.len() > 0 {
            if v.len() > max_chars {
                let mut s: String = string_of(&v, 0, max_chars);
                proof {
                    assert(v@.subrange(0, max_chars as int) =~= v@.take(max_chars as int));
                }
                s.append("...");
                return s;
            }
            return t;
        }
    }
    let s: String = String::new();
    proof {
        assert(s@ =~= first_line(lv.skip(lv.len() as int), max_chars as nat));
    }
    s
}

/// One memory.
#[derive(Debug, Clone)]
pub struct FileMemoryEntry {
    /// The path below the root, with forward slashes.
    pub name: String,
    /// The first line that holds anything.
    pub summary: String,
    pub size_bytes: u64,
    pub full_path: String,
}

/// A memory as it is listed: name, size, summary.
pub open spec fn entry_line(e: FileMemoryEntry) -> Seq<char> {
    "  "@ + e.name@ + "  ("@ + dec(e.size_bytes as nat) + "B)  "@ + e.summary@ + "\n"@
}

/// One line per memory.
pub open spec fn entry_lines(es: Seq<FileMemoryEntry>) -> Seq<char>
    decreases es.len(),
{
    if es.len() == 0 {
        seq![]
    } else {
        entry_lines(es.drop_last()) + entry_line(es.last())
    }
}

/// The list of all memories.
pub open spec fn memory_list(es: Seq<FileMemoryEntry>, root: Seq<char>) -> Seq<char> {
    "Memory ("@ + dec(es.len()) + " entr"@ + (if es.len() == 1 {
        "y"@
    } else {
        "ies"@
    }) + ", root="@ + root + "):\n"@ + (if es.len() == 0 {
        "(empty)"@
    } else {
        entry_lines(es)
    })
}

/// Whether names are in order.
pub open spec fn names_sorted(es: Seq<FileMemoryEntry>) -> bool {
    forall|i: int, j: int|
        0 <= i < j < es.len() ==> !crate::order::lex_less(
            (#[trigger] es[j]).name@,
            (#[trigger] es[i]).name@,
        )
}

/// Sorts memories by name.
pub fn sort_entries(entries: Vec<FileMemoryEntry>) -> (r: Vec<FileMemoryEntry>)
    ensures
        names_sorted(r@),
        r@.to_multiset() == entries@.to_multiset(),
{
    broadcast use vstd::seq_lib::group_to_multiset_ensures;

    let mut rest: Vec<FileMemoryEntry> = entries;
    let mut out: Vec<FileMemoryEntry> = Vec::new();
    proof {
        assert(out@.to_multiset().add(rest@.to_multiset()) =~= entries@.to_multiset());
    }
    while rest.len() > 0
        invariant
            names_sorted(out@),
            out@.to_multiset().add(rest@.to_multiset()) == entries@.to_multiset(),
        decreases rest@.len(),
    {
        let ghost before = rest@;
        let e: FileMemoryEntry = match rest.pop() {
            Some(e) => e,
            None => {
                return out;
            },
        };
        let mut p: usize = 0;
        while p < out.len() && !crate::order::str_less(e.name.as_str(), out[p].name.as_str())
            invariant
                p <= out@.len(),
                forall|k: int| 0 <= k < p ==> !crate::order::lex_less(e.name@, (#[trigger] out@[k]).name@),
            decreases out@.len() - p,
        {
            p = p + 1;
        }
        let ghost was = out@;
        out.insert(p, e);
        proof {
            broadcast use vstd::seq_lib::group_to_multiset_ensures;

            assert(before =~= rest@.push(e));
            assert(out@.remove(p as int) =~= was);
            assert(out@[p as int] == e);
            assert(out@.to_multiset().count(e) > 0);
            assert(out@.to_multiset() =~= was.to_multiset().insert(e));
            assert(out@.to_multiset().add(rest@.to_multiset()) =~= entries@.to_multiset());
            assert forall|i: int, j: int| 0 <= i < j < out@.len() implies !crate::order::lex_less(
                (#[trigger] out@[j]).name@,
                (#[trigger] out@[i]).name@,
            ) by {
                if i == p {
                    assert(out@[j] == was[j - 1]);
                    if j - 1 > p {
                        crate::order::lemma_lex_total(was[p as int].name@, was[j - 1].name@);
                    }
                    if crate::order::lex_less(was[j - 1].name@, e.name@) {
                        crate::order::lemma_lex_transitive(
                            was[j - 1].name@,
                            e.name@,
                            was[p as int].name@,
                        );
                        if j - 1 == p {
                            crate::order::lemma_lex_irreflexive(was[p as int].name@);
                        }
                    }
                } else if j == p {
                    assert(out@[i] == was[i]);
                } else {
                    let a = if i < p {
                        i
                    } else {
                        i - 1
                    };
                    let b = if j < p {
                        j
                    } else {
                        j - 1
                    };
                    assert(out@[i] == was[a]);
                    assert(out@[j] == was[b]);
                }
            }
        }
    }
    proof {
        assert(rest@ =~= Seq::<FileMemoryEntry>::empty());
        assert(out@.to_multiset() =~= entries@.to_multiset());
    }
    out
}

/// Whether a text is there and not empty.
pub open spec fn set_text(o: Option<Seq<char>>) -> bool {
    o matches Some(s) && s.len() > 0
}

/// Where memories are kept: in the directory that is asked for, else below
/// the user's data directory, else below the home directory, else here.
pub open spec fn default_root_of(
    asked: Option<Seq<char>>,
    data: Option<Seq<char>>,
    home: Option<Seq<char>>,
) -> Seq<char> {
    if set_text(asked) {
        asked->0
    } else if set_text(data) {
        path_below(data->0, "agentrust/memory"@)
    } else if set_text(home) {
        path_below(home->0, ".agentrust/memory"@)
    } else {
        ".agentrust/memory"@
    }
}

/// The name that a tool was given; one is required.
fn required_name(name: &Option<String>) -> (r: Result<String, ToolError>)
    ensures
        match r {
            Ok(n) => name matches Some(s) && s@.len() > 0 && n@ == s@,
            Err(e) => (name is None || name->0@.len() == 0) && e@ == failed(
                "'name' is required"@,
                "missing_parameter"@,
            ),
        },
{
    match name {
        Some(s) => if s.as_str().unicode_len() > 0 {
            Ok(s.clone())
        } else {
            Err(missing("'name' is required"))
        },
        None => Err(missing("'name' is required")),
    }
}

/// Lists all memories below a root.
fn list_output(entries: &Vec<FileMemoryEntry>, root: &str) -> (r: ToolOutput)
    ensures
        r@ == text_output(memory_list(entries@, root@)),
{
    let mut out: String = owned("Memory (");
    out.append(fmt_u64(entries.len() as u64).as_str());
    out.append(" entr");
    out.append(
        if entries.len() == 1 {
            "y"
        } else {
            "ies"
        },
    );
    out.append(", root=");
    out.append(root);
    out.append("):\n");
    if entries.len() == 0 {
        out.append("(empty)");
    } else {
        let mut body: String = String::new();
        proof {
            assert(body@ =~= entry_lines(entries@.take(0)));
        }
        for i in 0..entries.len()
            invariant
                body@ == entry_lines(entries@.take(i as int)),
        {
            let ghost before = body@;
            body.append("  ");
            body.append(entries[i].name.as_str());
            body.append("  (");
            body.append(fmt_u64(entries[i].size_bytes).as_str());
            body.append("B)  ");
            body.append(entries[i].summary.as_str());
            body.append("\n");
            proof {
                assert(entries@.take(i + 1).drop_last() =~= entries@.take(i as int));
                assert(body@ =~= before + entry_line(entries@[i as int]));
            }
        }
        proof {
            assert(entries@.take(entries@.len() as int) =~= entries@);
        }
        out.append(body.as_str());
    }
    ok_text(out)
}

/// The error for a memory that has no directory.
fn not_ready(root: &str) -> (r: ToolError)
    ensures
        r@ == failed("Memory store not ready at "@ + root@, "memory_unready"@),
{
    let mut m: String = owned("Memory store not ready at ");
    m.append(root);
    fail(m, "memory_unready")
}

/// The first `n` pieces of a path that are components: neither empty nor a
/// dot, but for a dot at the beginning.
pub open spec fn components_of(pieces: Seq<Seq<char>>, n: nat) -> Seq<Seq<char>>
    decreases n,
{
    if n == 0 {
        seq![]
    } else {
        let before = components_of(pieces, (n - 1) as nat);
        let c = pieces[n - 1];
        if c.len() == 0 || (c == "."@ && n > 1) {
            before
        } else {
            before.push(c)
        }
    }
}

/// The components of a path.
pub open spec fn components(path: Seq<char>) -> Seq<Seq<char>> {
    components_of(split_at_char(path, '/'), split_at_char(path, '/').len())
}

/// Whether a path starts at the root of the file system.
pub open spec fn is_rooted(path: Seq<char>) -> bool {
    path.len() > 0 && path[0] == '/'
}

/// Whether a path lies at or below a directory: it begins with all of the
/// directory's components.
pub open spec fn lies_below(root: Seq<char>, path: Seq<char>) -> bool {
    let r = components(root);
    let p = components(path);
    is_rooted(root) == is_rooted(path) && r.len() <= p.len() && p.take(r.len() as int) == r
}

fn split_path(path: &str) -> (r: Vec<String>)
    ensures
        views(r@) == components(path@),
{
    let pieces: Vec<String> = split_char(path, '/');
    let ghost pv = views(pieces@);
    let mut out: Vec<String> = Vec::new();
    proof {
        assert(views(out@) =~= seq![]);
    }
    for i in 0..pieces.len()
        invariant
            pv == views(pieces@),
            views(out@) == components_of(pv, i as nat),
    {
        let c: String = pieces[i].clone();
        if c.as_str().unicode_len() > 0 && !(i > 0 && same(c.as_str(), ".")) {
            proof {
                lemma_views_push(out@, c);
            }
            out.push(c);
        }
    }
    out
}

fn rooted(path: &str) -> (r: bool)
    ensures
        r == is_rooted(path@),
{
    let v: Vec<char> = chars_of(path);
    v.len() > 0 && v[0] == '/'
}

/// Whether a path lies at or below a directory.
pub fn contained(root: &str, path: &str) -> (r: bool)
    ensures
        r == lies_below(root@, path@),
{
    let a: Vec<String> = split_path(root);
    let b: Vec<String> = split_path(path);
    let ghost av = views(a@);
    let ghost bv = views(b@);
    if rooted(root) != rooted(path) || a.len() > b.len() {
        return false;
    }
    for i in 0..a.len()
        invariant
            a@.len() <= b@.len(),
            av == views(a@),
            bv == views(b@),
            av == components(root@),
            bv == components(path@),
            forall|k: int| 0 <= k < i ==> #[trigger] av[k] == bv[k],
    {
        if !same(a[i].as_str(), b[i].as_str()) {
            proof {
                assert(av[i as int] != bv.take(av.len() as int)[i as int]);
            }
            return false;
        }
    }
    proof {
        assert(bv.take(av.len() as int) =~= av);
    }
    true
}

/// A directory of memories, each in a plain text file.
#[derive(Debug, Clone)]
pub struct FileMemoryStore {
    pub root: String,
    /// Whether the directory is there.
    pub ready: bool,
}

impl FileMemoryStore {
    pub fn new(root: &str, ready: bool) -> (r: FileMemoryStore)
        ensures
            r.root@ == root@,
            r.ready == ready,
    {
        FileMemoryStore { root: owned(root), ready }
    }

    /// Where memories are kept, given what the environment says.
    pub fn default_root(
        asked: &Option<String>,
        data_home: &Option<String>,
        home: &Option<String>,
    ) -> (r: String)
        ensures
            r@ == default_root_of(opt_view(*asked), opt_view(*data_home), opt_view(*home)),
    {
        match asked {
            Some(s) => {
                if s.as_str().unicode_len() > 0 {
                    return s.clone();
                }
            },
            None => {},
        }
        match data_home {
            Some(s) => {
                if s.as_str().unicode_len() > 0 {
                    return join_path(s.as_str(), "agentrust/memory");
                }
            },
            None => {},
        }
        match home {
            Some(s) => {
                if s.as_str().unicode_len() > 0 {
                    return join_path(s.as_str(), ".agentrust/memory");
                }
            },
            None => {},
        }
        owned(".agentrust/memory")
    }

    pub fn root(&self) -> (r: &str)
        ensures
            r@ == self.root@,
    {
        self.root.as_str()
    }

    pub fn is_ready(&self) -> (r: bool)
        ensures
            r == self.ready,
    {
        self.ready
    }

    /// Whether a name may stand for a file of the memory: the memory is ready
    /// and the name is safe.
    pub fn resolves(&self, name: &str) -> (r: bool)
        ensures
            r == (self.ready && safe_name(name@)),
    {
        self.ready && name_is_safe(name)
    }

    /// The file of a name, given the canonical forms of the root and of the
    /// path that the name leads to: that path, where the memory is ready, the
    /// name is safe and the path lies below the root.
    pub fn resolve(&self, name: &str, root: &str, path: &str) -> (r: Option<String>)
        ensures
            match r {
                Some(p) => p@ == path@ && self.ready && safe_name(name@) && lies_below(
                    root@,
                    path@,
                ),
                None => !(self.ready && safe_name(name@) && lies_below(root@, path@)),
            },
    {
        if self.resolves(name) && contained(root, path) {
            Some(owned(path))
        } else {
            None
        }
    }

    /// All memories that were found, sorted by name; none before the memory
    /// is ready.
    pub fn list(&self, found: Vec<FileMemoryEntry>) -> (r: Vec<FileMemoryEntry>)
        ensures
            names_sorted(r@),
            self.ready ==> r@.to_multiset() == found@.to_multiset(),
            !self.ready ==> r@.len() == 0,
    {
        if self.ready {
            sort_entries(found)
        } else {
            Vec::new()
        }
    }
}

/// What the model is told of the tool.
pub const LIST_DESCRIPTION: &'static str = "List every memory entry with its name, size and first-line summary. Memory entries are plain text files that survive across CLI runs.";

/// The JSON schema of the tool's input.
pub const LIST_SCHEMA: &'static str = "{\"properties\":{},\"type\":\"object\"}";

#[derive(Debug, Clone)]
pub struct MemoryListTool {
    pub store: FileMemoryStore,
}

impl MemoryListTool {
    pub fn new(store: FileMemoryStore) -> (r: MemoryListTool)
        ensures
            r.store == store,
    {
        MemoryListTool { store }
    }

    pub fn name(&self) -> (r: &'static str)
        ensures
            r@ == "MemoryList"@,
    {
        "MemoryList"
    }

    pub fn description(&self) -> (r: &'static str)
        ensures
            r@ == LIST_DESCRIPTION@,
    {
        LIST_DESCRIPTION
    }

    pub fn input_schema(&self) -> (r: &'static str)
        ensures
            r@ == LIST_SCHEMA@,
    {
        LIST_SCHEMA
    }

    /// Lists the memories that were found.
    pub fn execute(&self, entries: &Vec<FileMemoryEntry>) -> (r: Result<ToolOutput, ToolError>)
        ensures
            outcome(r) == (if self.store.ready {
                Ok(text_output(memory_list(entries@, self.store.root@)))
            } else {
                Err(
                    failed("Memory store not ready at "@ + self.store.root@, "memory_unready"@),
                )
            }),
    {
        if self.store.is_ready() {
            Ok(list_output(entries, self.store.root()))
        } else {
            Err(not_ready(self.store.root()))
        }
    }
}

/// What the model is told of the tool.
pub const READ_DESCRIPTION: &'static str = "Read one memory entry by its relative name (e.g. 'notes/projects.md').";

/// The JSON schema of the tool's input.
pub const READ_SCHEMA: &'static str = "{\"properties\":{\"name\":{\"description\":\"Relative path under the memory root.\",\"type\":\"string\"}},\"required\":[\"name\"],\"type\":\"object\"}";

#[derive(Debug, Clone)]
pub struct MemoryReadTool {
    pub store: FileMemoryStore,
}

impl MemoryReadTool {
    pub fn new(store: FileMemoryStore) -> (r: MemoryReadTool)
        ensures
            r.store == store,
    {
        MemoryReadTool { store }
    }

    pub fn name(&self) -> (r: &'static str)
        ensures
            r@ == "MemoryRead"@,
    {
        "MemoryRead"
    }

    pub fn description(&self) -> (r: &'static str)
        ensures
            r@ == READ_DESCRIPTION@,
    {
        READ_DESCRIPTION
    }

    pub fn input_schema(&self) -> (r: &'static str)
        ensures
            r@ == READ_SCHEMA@,
    {
        READ_SCHEMA
    }

    /// The name that a tool was given; one is required.
    pub fn request(&self, name: &Option<String>) -> (r: Result<String, ToolError>)
        ensures
            match r {
                Ok(n) => name matches Some(s) && s@.len() > 0 && n@ == s@,
                Err(e) => (name is None || name->0@.len() == 0) && e@ == failed(
                    "'name' is required"@,
                    "missing_parameter"@,
                ),
            },
    {
        required_name(name)
    }

    /// What a read reports; none stands for a memory that could not be read.
    pub fn execute(&self, name: &str, body: Option<String>) -> (r: Result<ToolOutput, ToolError>)
        ensures
            outcome(r) == (match body {
                Some(b) => Ok(text_output(b@)),
                None => Err(
                    failed("memory entry not found or invalid name: "@ + name@, "not_found"@),
                ),
            }),
    {
        match body {
            Some(b) => Ok(ok_text(b)),
            None => {
                let mut m: String = owned("memory entry not found or invalid name: ");
                m.append(name);
                Err(fail(m, "not_found"))
            },
        }
    }
}

/// What the model is told of the tool.
pub const WRITE_DESCRIPTION: &'static str = "Create or overwrite a memory entry. Names are relative paths under the memory root.";

/// The JSON schema of the tool's input.
pub const WRITE_SCHEMA: &'static str = "{\"properties\":{\"content\":{\"description\":\"Full text body to store.\",\"type\":\"string\"},\"name\":{\"description\":\"Relative path under the memory root.\",\"type\":\"string\"}},\"required\":[\"name\",\"content\"],\"type\":\"object\"}";

#[derive(Debug, Clone)]
pub struct MemoryWriteTool {
    pub store: FileMemoryStore,
    pub read_only: bool,
}

impl MemoryWriteTool {
    pub fn new(store: FileMemoryStore) -> (r: MemoryWriteTool)
        ensures
            r.store == store,
            !r.read_only,
    {
        MemoryWriteTool { store, read_only: false }
    }

    pub fn with_read_only(store: FileMemoryStore, read_only: bool) -> (r: MemoryWriteTool)
        ensures
            r.store == store,
            r.read_only == read_only,
    {
        MemoryWriteTool { store, read_only }
    }

    pub fn name(&self) -> (r: &'static str)
        ensures
            r@ == "MemoryWrite"@,
    {
        "MemoryWrite"
    }

    pub fn description(&self) -> (r: &'static str)
        ensures
            r@ == WRITE_DESCRIPTION@,
    {
        WRITE_DESCRIPTION
    }

    pub fn input_schema(&self) -> (r: &'static str)
        ensures
            r@ == WRITE_SCHEMA@,
    {
        WRITE_SCHEMA
    }

    /// Whether a write may go on; else why not.
    pub fn request(&self, name: &Option<String>) -> (r: Result<String, ToolError>)
        ensures
            match r {
                Ok(n) => !self.read_only && (name matches Some(s) && s@.len() > 0 && n@ == s@),
                Err(e) => if self.read_only {
                    e@ == failed("read-only mode: MemoryWrite is disabled"@, "read_only"@)
                } else {
                    (name is None || name->0@.len() == 0) && e@ == failed(
                        "'name' is required"@,
                        "missing_parameter"@,
                    )
                },
            },
    {
        if self.read_only {
            return Err(fail(owned("read-only mode: MemoryWrite is disabled"), "read_only"));
        }
        required_name(name)
    }

    /// What a write reports; none stands for one that failed.
    pub fn execute(&self, name: &str, content: &str, path: &Option<String>) -> (r: Result<
        ToolOutput,
        ToolError,
    >)
        ensures
            outcome(r) == (match *path {
                Some(p) => Ok(
                    text_output(
                        "Wrote "@ + dec(encode_utf8(content@).len()) + " bytes to "@ + p@,
                    ),
                ),
                None => Err(
                    failed(
                        "memory write failed (invalid name or IO error): "@ + name@,
                        "write_failed"@,
                    ),
                ),
            }),
    {
        match path {
            Some(p) => {
                let mut m: String = owned("Wrote ");
                m.append(fmt_u64(byte_len(content) as u64).as_str());
                m.append(" bytes to ");
                m.append(p.as_str());
                Ok(ok_text(m))
            },
            None => {
                let mut m: String = owned("memory write failed (invalid name or IO error): ");
                m.append(name);
                Err(fail(m, "write_failed"))
            },
        }
    }
}

/// Whether all components of a name are safe.
pub open spec fn parts_are_safe(s: Seq<char>) -> bool {
    component_scan(s).0 && safe_component(component_scan(s).1)
}

proof fn lemma_scan_parts(a: Seq<char>, c: char, b: Seq<char>)
    requires
        is_separator(c),
    ensures
        component_scan(a.push(c) + b).0 == (parts_are_safe(a) && component_scan(b).0),
        component_scan(a.push(c) + b).1 == component_scan(b).1,
    decreases b.len(),
{
    if b.len() == 0 {
        assert(a.push(c) + b =~= a.push(c));
        assert(a.push(c).drop_last() =~= a);
    } else {
        lemma_scan_parts(a, c, b.drop_last());
        assert((a.push(c) + b).drop_last() =~= a.push(c) + b.drop_last());
    }
}

/// A safe name is safe on both sides of each of its separators: nowhere does
/// a component begin with a dot, and none is empty.
pub proof fn law_every_component_is_safe(a: Seq<char>, c: char, b: Seq<char>)
    requires
        c == '/' || c == '\\',
    ensures
        parts_are_safe(a.push(c) + b) <==> parts_are_safe(a) && parts_are_safe(b),
        safe_name(a.push(c) + b) ==> a.len() > 0 && b.len() > 0 && b[0] != '.' && b[0] != '/' && b[0]
            != '\\',
{
    lemma_scan_parts(a, c, b);
    if safe_name(a.push(c) + b) {
        assert(parts_are_safe(b));
        if b.len() == 0 {
            assert(component_scan(b).1.len() == 0);
        } else {
            if is_separator(b[0]) {
                let t = b.skip(1);
                let e = Seq::<char>::empty();
                assert(e.push(b[0]) + t =~= b);
                lemma_scan_parts(e, b[0], t);
                assert(component_scan(e).1.len() == 0);
            } else {
                lemma_first_component(b);
            }
        }
        if a.len() == 0 {
            assert(component_scan(a).1.len() == 0);
        }
    }
}

proof fn lemma_no_control(s: Seq<char>)
    requires
        component_scan(s).0,
        forall|i: int|
            0 <= i < component_scan(s).1.len() ==> #[trigger] component_scan(s).1[i] as u32 >= 0x20,
    ensures
        forall|i: int| 0 <= i < s.len() ==> #[trigger] s[i] as u32 >= 0x20,
    decreases s.len(),
{
    if s.len() > 0 {
        let d = s.drop_last();
        let open = component_scan(d).1;
        if !is_separator(s.last()) {
            assert forall|i: int| 0 <= i < open.len() implies #[trigger] open[i] as u32 >= 0x20 by {
                assert(component_scan(s).1[i] == open[i]);
            }
            assert(component_scan(s).1[open.len() as int] == s.last());
        }
        lemma_no_control(d);
        assert forall|i: int| 0 <= i < s.len() implies #[trigger] s[i] as u32 >= 0x20 by {
            if i < d.len() {
                assert(d[i] == s[i]);
            }
        }
    }
}

/// A safe name has no control characters and at most 512 bytes.
pub proof fn law_safe_names_are_plain(s: Seq<char>)
    requires
        safe_name(s),
    ensures
        forall|i: int| 0 <= i < s.len() ==> #[trigger] s[i] as u32 >= 0x20,
        0 < encode_utf8(s).len() <= 512,
{
    lemma_no_control(s);
}

/// A name of one component is safe where it is not hidden, has no control
/// character, no two dots in a row, at most 512 bytes, and no colon as its
/// second.
pub proof fn law_simple_names_are_safe(s: Seq<char>)
    requires
        forall|i: int|
            0 <= i < s.len() ==> #[trigger] s[i] as u32 >= 0x20 && s[i] != '/' && s[i] != '\\',
        s.len() > 0,
        s[0] != '.',
        !has_dots(s),
        0 < encode_utf8(s).len() <= 512,
        encode_utf8(s).len() >= 2 ==> encode_utf8(s)[1] != 0x3a,
    ensures
        safe_name(s),
{
    assert forall|i: int| 0 <= i < s.len() implies !is_separator(#[trigger] s[i]) by {}
    lemma_open_is_all(s);
    lemma_nothing_closed(s);
}

proof fn lemma_nothing_closed(s: Seq<char>)
    requires
        forall|i: int| 0 <= i < s.len() ==> !is_separator(#[trigger] s[i]),
    ensures
        component_scan(s).0,
    decreases s.len(),
{
    if s.len() > 0 {
        let d = s.drop_last();
        assert forall|i: int| 0 <= i < d.len() implies !is_separator(#[trigger] d[i]) by {
            assert(d[i] == s[i]);
        }
        lemma_nothing_closed(d);
        assert(!is_separator(s[s.len() - 1]));
    }
}

proof fn lemma_components_grow(p: Seq<Seq<char>>, q: Seq<Seq<char>>, n: nat)
    requires
        p.len() <= n <= p.len() + q.len(),
    ensures
        ({
            let c = components_of(p, p.len());
            let r = components_of(p + q, n);
            c.len() <= r.len() && r.take(c.len() as int) == c
        }),
    decreases n,
{
    let c = components_of(p, p.len());
    let r = components_of(p + q, n);
    if n == p.len() {
        lemma_components_of_prefix(p, q, n);
        assert(r.take(c.len() as int) =~= c);
    } else {
        lemma_components_grow(p, q, (n - 1) as nat);
        let b = components_of(p + q, (n - 1) as nat);
        assert(r.take(c.len() as int) =~= b.take(c.len() as int));
    }
}

proof fn lemma_components_of_prefix(p: Seq<Seq<char>>, q: Seq<Seq<char>>, n: nat)
    requires
        n <= p.len(),
    ensures
        components_of(p + q, n) == components_of(p, n),
    decreases n,
{
    if n > 0 {
        lemma_components_of_prefix(p, q, (n - 1) as nat);
    }
}

/// A directory lies below itself, what lies below something below it does
/// too, and so does whatever its path is continued to.
pub proof fn law_paths_below(root: Seq<char>, mid: Seq<char>, path: Seq<char>, rest: Seq<char>)
    ensures
        lies_below(root, root),
        lies_below(root, mid) && lies_below(mid, path) ==> lies_below(root, path),
        root.len() > 0 ==> lies_below(root, root.push('/') + rest),
{
    let r = components(root);
    assert(r.take(r.len() as int) =~= r);
    let m = components(mid);
    let p = components(path);
    if lies_below(root, mid) && lies_below(mid, path) {
        assert(p.take(r.len() as int) =~= p.take(m.len() as int).take(r.len() as int));
    }
    if root.len() > 0 {
        let a = split_at_char(root, '/');
        let b = split_at_char(rest, '/');
        law_split_at_separator(root, '/', rest);
        lemma_components_grow(a, b, (a + b).len());
        assert((root.push('/') + rest)[0] == root[0]);
    }
}

/// What lies below a directory has all of its components first: a path that
/// differs in one of them, has fewer, or is absolute where the other is not,
/// does not.
pub proof fn law_paths_elsewhere(root: Seq<char>, path: Seq<char>, i: int)
    requires
        0 <= i < components(root).len(),
    ensures
        components(path).len() <= i ==> !lies_below(root, path),
        i < components(path).len() && components(path)[i] != components(root)[i] ==> !lies_below(
            root,
            path,
        ),
        is_rooted(root) != is_rooted(path) ==> !lies_below(root, path),
{
    let r = components(root);
    let p = components(path);
    if lies_below(root, path) {
        assert(p.take(r.len() as int)[i] == p[i]);
    }
}

/// The summary is the first line that is not blank, without the white space
/// around it, cut where it is too long.
pub proof fn law_summary_is_the_first_line(line: Seq<char>, rest: Seq<Seq<char>>, max: nat)
    ensures
        trimmed(line).len() == 0 ==> first_line(seq![line] + rest, max) == first_line(rest, max),
        0 < trimmed(line).len() <= max ==> first_line(seq![line] + rest, max) == trimmed(line),
        trimmed(line).len() > max && trimmed(line).len() > 0 ==> first_line(seq![line] + rest, max)
            == trimmed(line).take(max as int) + "..."@,
        first_line(seq![], max).len() == 0,
{
    assert((seq![line] + rest).skip(1) =~= rest);
}

proof fn lemma_entry_shown(es: Seq<FileMemoryEntry>, i: int)
    requires
        0 <= i < es.len(),
    ensures
        shows(entry_lines(es), entry_line(es[i])),
    decreases es.len(),
{
    let l = entry_line(es[i]);
    let before = entry_lines(es.drop_last());
    let last = entry_line(es.last());
    if i == es.len() - 1 {
        lemma_shows_itself(last);
        lemma_shows(before, last, Seq::empty(), l);
        assert(before + last + Seq::empty() =~= entry_lines(es));
    } else {
        lemma_entry_shown(es.drop_last(), i);
        lemma_shows(Seq::empty(), before, last, l);
        assert(Seq::empty() + before + last =~= entry_lines(es));
    }
}

/// The list shows the name, the size and the summary of every memory, and
/// tells that there are none where there are none.
pub proof fn law_list_shows_every_memory(es: Seq<FileMemoryEntry>, root: Seq<char>)
    ensures
        forall|i: int|
            0 <= i < es.len() ==> shows(
                memory_list(es, root),
                "  "@ + (#[trigger] es[i]).name@ + "  ("@ + dec(es[i].size_bytes as nat) + "B)  "@
                    + es[i].summary@ + "\n"@,
            ),
        begins(memory_list(es, root), "Memory ("@ + dec(es.len()) + " entr"@),
        es.len() == 0 ==> ends(memory_list(es, root), "(empty)"@),
{
    let r = memory_list(es, root);
    let first = "Memory ("@ + dec(es.len()) + " entr"@;
    assert(r.take(first.len() as int) =~= first);
    let head = first + (if es.len() == 1 {
        "y"@
    } else {
        "ies"@
    }) + ", root="@ + root + "):\n"@;
    if es.len() == 0 {
        assert(r.skip(r.len() - "(empty)"@.len()) =~= "(empty)"@);
    }
    assert forall|i: int| 0 <= i < es.len() implies shows(
        r,
        "  "@ + (#[trigger] es[i]).name@ + "  ("@ + dec(es[i].size_bytes as nat) + "B)  "@
            + es[i].summary@ + "\n"@,
    ) by {
        lemma_entry_shown(es, i);
        lemma_shows(head, entry_lines(es), Seq::empty(), entry_line(es[i]));
        assert(head + entry_lines(es) + Seq::empty() =~= r);
    }
}

/// The directory that is asked for comes before the user's data directory,
/// and that before the home directory; what is empty counts as not given.
pub proof fn law_root_in_order(
    asked: Option<Seq<char>>,
    data: Option<Seq<char>>,
    home: Option<Seq<char>>,
    p: Seq<char>,
)
    requires
        p.len() > 0,
    ensures
        default_root_of(Some(p), data, home) == p,
        default_root_of(None, Some(p), home) == path_below(p, "agentrust/memory"@),
        default_root_of(None, None, Some(p)) == path_below(p, ".agentrust/memory"@),
        default_root_of(None, None, None) == ".agentrust/memory"@,
        default_root_of(Some(seq![]), data, home) == default_root_of(None, data, home),
        default_root_of(asked, Some(seq![]), home) == default_root_of(asked, None, home),
        default_root_of(asked, data, Some(seq![])) == default_root_of(asked, data, None),
{
}

} // verus!
