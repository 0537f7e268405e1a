//! Finding files by pattern.
//!
//! A pattern is matched component by component: `*` stands for any
//! characters but the separator, `?` for a single one, `[...]` for one of a
//! class (`[!...]` for one outside it), and `**` for any number of
//! components.
use crate::order::{law_lex_sorted, lex_less, lex_sorted, sort_strings};
use crate::text::{
    begins, chars_of, dec, ends, fmt_u64, lemma_shows, lemma_shows_itself, lemma_views_push, owned,
    same, shows, split_at_char, split_char, views,
};
use crate::tools::registry::{failed, missing, ok_text, text_output, ToolError, ToolOutput};
use crate::window::at_most;
use vstd::prelude::*;

verus! {

/// The position of the first `]` from `i` on, or the length when there is
/// none.
pub open spec fn class_end(p: Seq<char>, i: int) -> int
    decreases p.len() - i,
{
    if i >= p.len() || p[i] == ']' {
        if i > p.len() {
            p.len() as int
        } else {
            i
        }
    } else {
        class_end(p, i + 1)
    }
}

/// Whether a character belongs to a class, given what stands between its
/// brackets.
pub open spec fn in_class(cls: Seq<char>, c: char) -> bool {
    if cls.len() > 0 && cls[0] == '!' {
        !cls.skip(1).contains(c)
    } else {
        cls.contains(c)
    }
}

/// Whether a component matches a pattern without separators.
pub open spec fn component_matches(p: Seq<char>, s: Seq<char>) -> bool
    decreases p.len(), s.len(),
{
    if p.len() == 0 {
        s.len() == 0
    } else if p[0] == '*' {
        component_matches(p.skip(1), s) || (s.len() > 0 && s[0] != '/' && component_matches(
            p,
            s.skip(1),
        ))
    } else if s.len() == 0 {
        false
    } else if p[0] == '?' {
        s[0] != '/' && component_matches(p.skip(1), s.skip(1))
    } else if p[0] == '[' && 0 < class_end(p, 1) < p.len() {
        let e = class_end(p, 1);
        in_class(p.subrange(1, e), s[0]) && component_matches(p.skip(e + 1), s.skip(1))
    } else {
        p[0] == s[0] && component_matches(p.skip(1), s.skip(1))
    }
}

/// Whether the components of a path match those of a pattern.
pub open spec fn path_matches(p: Seq<Seq<char>>, s: Seq<Seq<char>>) -> bool
    decreases p.len(), s.len(),
{
    if p.len() == 0 {
        s.len() == 0
    } else if p[0] == "**"@ {
        path_matches(p.skip(1), s) || (s.len() > 0 && path_matches(p, s.skip(1)))
    } else {
        s.len() > 0 && component_matches(p[0], s[0]) && path_matches(p.skip(1), s.skip(1))
    }
}

/// Whether a path matches a pattern.
pub open spec fn glob_matches(pattern: Seq<char>, path: Seq<char>) -> bool {
    path_matches(split_at_char(pattern, '/'), split_at_char(path, '/'))
}

/// Without a `**`, a pattern only matches paths of its own depth.
pub proof fn law_stars_keep_depth(p: Seq<Seq<char>>, s: Seq<Seq<char>>)
    requires
        forall|i: int| 0 <= i < p.len() ==> #[trigger] p[i] != "**"@,
        path_matches(p, s),
    ensures
        p.len() == s.len(),
    decreases p.len(),
{
    if p.len() > 0 {
        let q = p.skip(1);
        assert forall|i: int| 0 <= i < q.len() implies #[trigger] q[i] != "**"@ by {
            assert(q[i] == p[i + 1]);
        }
        law_stars_keep_depth(q, s.skip(1));
    }
}

/// A `**` alone matches every path.
pub proof fn law_double_star_matches_all(s: Seq<Seq<char>>)
    ensures
        path_matches(seq!["**"@], s),
    decreases s.len(),
{
    let p = seq!["**"@];
    if s.len() > 0 {
        law_double_star_matches_all(s.skip(1));
    } else {
        assert(p.skip(1).len() == 0);
        assert(path_matches(p.skip(1), s));
    }
}

/// A `**` before a pattern matches whatever the pattern matches, at any
/// depth.
pub proof fn law_double_star_any_depth(p: Seq<Seq<char>>, lead: Seq<Seq<char>>, s: Seq<Seq<char>>)
    requires
        path_matches(p, s),
    ensures
        path_matches(seq!["**"@] + p, lead + s),
    decreases lead.len(),
{
    let q = seq!["**"@] + p;
    assert(q.skip(1) =~= p);
    if lead.len() == 0 {
        assert(lead + s =~= s);
    } else {
        law_double_star_any_depth(p, lead.skip(1), s);
        assert((lead + s).skip(1) =~= lead.skip(1) + s);
    }
}

/// A `*` alone matches every component without a separator.
pub proof fn law_star_matches_component(s: Seq<char>)
    requires
        !s.contains('/'),
    ensures
        component_matches(seq!['*'], s),
    decreases s.len(),
{
    let p = seq!['*'];
    if s.len() > 0 {
        assert(s[0] != '/');
        assert forall|c: char| s.skip(1).contains(c) implies s.contains(c) by {
            let k = choose|k: int| 0 <= k < s.skip(1).len() && s.skip(1)[k] == c;
            assert(s[k + 1] == c);
        }
        law_star_matches_component(s.skip(1));
    } else {
        assert(p.skip(1).len() == 0);
        assert(component_matches(p.skip(1), s));
    }
}

proof fn lemma_class_end(p: Seq<char>, i: int)
    requires
        0 <= i <= p.len(),
    ensures
        i <= class_end(p, i) <= p.len(),
    decreases p.len() - i,
{
    if i < p.len() && p[i] != ']' {
        lemma_class_end(p, i + 1);
    }
}

proof fn lemma_class_end_shift(v: Seq<char>, pi: int, i: int)
    requires
        0 <= pi <= v.len(),
        0 <= i,
        pi + i <= v.len(),
    ensures
        class_end(v.skip(pi), i) == class_end(v, pi + i) - pi,
    decreases v.len() - pi - i,
{
    if pi + i < v.len() {
        assert(v.skip(pi)[i] == v[pi + i]);
        if v[pi + i] != ']' {
            lemma_class_end_shift(v, pi, i + 1);
        }
    }
}

fn find_close(v: &Vec<char>, from: usize) -> (r: usize)
    requires
        from <= v@.len(),
    ensures
        r == class_end(v@, from as int),
        from <= r <= v@.len(),
{
    let mut i: usize = from;
    proof {
        lemma_class_end(v@, from as int);
    }
    while i < v.len() && v[i] != ']'
        invariant
            from <= i <= v@.len(),
            class_end(v@, from as int) == class_end(v@, i as int),
        decreases v@.len() - i,
    {
        i = i + 1;
    }
    i
}

fn class_holds(v: &Vec<char>, from: usize, to: usize, c: char) -> (r: bool)
    requires
        from <= to <= v@.len(),
    ensures
        r == in_class(v@.subrange(from as int, to as int), c),
{
    let ghost cls = v@.subrange(from as int, to as int);
    let negate: bool = from < to && v[from] == '!';
    let start: usize = if negate {
        from + 1
    } else {
        from
    };
    let ghost body = v@.subrange(start as int, to as int);
    let mut found: bool = false;
    let mut i: usize = start;
    while i < to
        invariant
            start <= i <= to <= v@.len(),
            body == v@.subrange(start as int, to as int),
            found == exists|k: int| 0 <= k < i - start && #[trigger] body[k] == c,
        decreases to - i,
    {
        proof {
            assert(body[i - start] == v@[i as int]);
        }
        if v[i] == c {
            found = true;
        }
        i = i + 1;
    }
    proof {
        assert(found == body.contains(c));
        if negate {
            assert(cls.skip(1) =~= body);
        } else {
            assert(cls =~= body);
        }
    }
    if negate {
        !found
    } else {
        found
    }
}

fn match_from(p: &Vec<char>, pi: usize, s: &Vec<char>, si: usize) -> (r: bool)
    requires
        pi <= p@.len(),
        si <= s@.len(),
    ensures
        r == component_matches(p@.skip(pi as int), s@.skip(si as int)),
    decreases p@.len() - pi, s@.len() - si,
{
    let ghost pp = p@.skip(pi as int);
    let ghost ss = s@.skip(si as int);
    let pn: usize = p.len();
    let sn: usize = s.len();
    if pi == pn {
        return si == sn;
    }
    proof {
        assert(pp[0] == p@[pi as int]);
        assert(pp.skip(1) =~= p@.skip(pi + 1));
        if si < sn {
            assert(ss[0] == s@[si as int]);
            assert(ss.skip(1) =~= s@.skip(si + 1));
        }
    }
    let c: char = p[pi];
    if c == '*' {
        if match_from(p, pi + 1, s, si) {
            return true;
        }
        return si < sn && s[si] != '/' && match_from(p, pi, s, si + 1);
    }
    if si == sn {
        return false;
    }
    if c == '?' {
        return s[si] != '/' && match_from(p, pi + 1, s, si + 1);
    }
    if c == '[' {
        let e: usize = find_close(p, pi + 1);
        proof {
            lemma_class_end_shift(p@, pi as int, 1);
        }
        if e < pn {
            proof {
                assert(pp.subrange(1, e - pi) =~= p@.subrange(pi + 1, e as int));
                assert(pp.skip(e - pi + 1) =~= p@.skip(e + 1));
            }
            return class_holds(p, pi + 1, e, s[si]) && match_from(p, e + 1, s, si + 1);
        }
    }
    c == s[si] && match_from(p, pi + 1, s, si + 1)
}

/// Whether a component matches a pattern without separators.
pub fn match_component(pattern: &str, s: &str) -> (r: bool)
    ensures
        r == component_matches(pattern@, s@),
{
    let p: Vec<char> = chars_of(pattern);
    let v: Vec<char> = chars_of(s);
    proof {
        assert(p@.skip(0) =~= p@);
        assert(v@.skip(0) =~= v@);
    }
    match_from(&p, 0, &v, 0)
}

fn match_path(p: &Vec<String>, pi: usize, s: &Vec<String>, si: usize) -> (r: bool)
    requires
        pi <= p@.len(),
        si <= s@.len(),
    ensures
        r == path_matches(views(p@).skip(pi as int), views(s@).skip(si as int)),
    decreases p@.len() - pi, s@.len() - si,
{
    let ghost pp = views(p@).skip(pi as int);
    let ghost ss = views(s@).skip(si as int);
    if pi == p.len() {
        return si == s.len();
    }
    proof {
        assert(pp[0] == p@[pi as int]@);
        assert(pp.skip(1) =~= views(p@).skip(pi + 1));
        if si < s@.len() {
            assert(ss[0] == s@[si as int]@);
            assert(ss.skip(1) =~= views(s@).skip(si + 1));
        }
    }
    if same(p[pi].as_str(), "**") {
        if match_path(p, pi + 1, s, si) {
            return true;
        }
        return si < s.len() && match_path(p, pi, s, si + 1);
    }
    si < s.len() && match_component(p[pi].as_str(), s[si].as_str()) && match_path(
        p,
        pi + 1,
        s,
        si + 1,
    )
}

/// Whether a relative path matches a pattern.
pub fn glob_match(pattern: &str, rel_path: &str) -> (r: bool)
    ensures
        r == glob_matches(pattern@, rel_path@),
{
    let p: Vec<String> = split_char(pattern, '/');
    let s: Vec<String> = split_char(rel_path, '/');
    proof {
        assert(views(p@).skip(0) =~= views(p@));
        assert(views(s@).skip(0) =~= views(s@));
    }
    match_path(&p, 0, &s, 0)
}

/// Whether a directory entry is left out of a search: hidden ones below the
/// base, and directories full of noise.
pub open spec fn left_out(name: Seq<char>, depth: nat) -> bool {
    (name.len() > 0 && name[0] == '.' && depth > 0) || name == "node_modules"@ || name == "build"@
        || name == "dist"@ || name == "target"@
}

/// Whether a directory entry is left out of a search.
pub fn skip_entry(name: &str, depth: usize) -> (r: bool)
    ensures
        r == left_out(name@, depth as nat),
{
    let hidden: bool = name.unicode_len() > 0 && name.get_char(0) == '.';
    (hidden && depth > 0) || same(name, "node_modules") || same(name, "build") || same(name, "dist")
        || same(name, "target")
}

/// What a search is asked for.
#[derive(Debug, Clone)]
pub struct GlobRequest {
    pub pattern: String,
    pub limit: usize,
}

/// How many results a search gives: one hundred unless asked otherwise, at
/// most a thousand.
pub open spec fn result_limit(limit: Option<u64>) -> usize {
    match limit {
        Some(n) => if n < 1000 {
            n as usize
        } else {
            1000
        },
        None => 100,
    }
}

/// The paths that match, in the order they were found, at most `limit`.
pub open spec fn matching(pattern: Seq<char>, paths: Seq<Seq<char>>, limit: nat) -> Seq<Seq<char>> {
    at_most(paths.filter(|p: Seq<char>| glob_matches(pattern, p)), limit)
}

/// A path with its separators made the least of all characters, so that
/// paths are ordered component by component.
pub open spec fn path_key(p: Seq<char>) -> Seq<char> {
    p.map_values(
        |c: char|
            if c == '/' {
                '\0'
            } else {
                c
            },
    )
}

/// The path of a key.
pub open spec fn key_path(p: Seq<char>) -> Seq<char> {
    p.map_values(
        |c: char|
            if c == '\0' {
                '/'
            } else {
                c
            },
    )
}

/// Paths in order, component by component.
pub open spec fn sorted_paths(paths: Seq<Seq<char>>) -> Seq<Seq<char>> {
    lex_sorted(paths.map_values(|p: Seq<char>| path_key(p))).map_values(
        |k: Seq<char>| key_path(k),
    )
}

/// One line per path.
pub open spec fn path_lines(paths: Seq<Seq<char>>) -> Seq<char>
    decreases paths.len(),
{
    if paths.len() == 0 {
        seq![]
    } else {
        path_lines(paths.drop_last()) + paths.last() + "\n"@
    }
}

/// The report of a search.
pub open spec fn glob_report(pattern: Seq<char>, paths: Seq<Seq<char>>, limit: nat) -> Seq<char> {
    if paths.len() == 0 {
        "No files found matching: "@ + pattern
    } else {
        dec(paths.len()) + " file(s) matching \""@ + pattern + "\":\n\n"@ + path_lines(paths) + (
        if paths.len() >= limit {
            "\n(Results capped at "@ + dec(limit) + ". Use a more specific pattern.)"@
        } else {
            seq![]
        })
    }
}

fn swap_char(s: &str, from: char, to: char) -> (r: String)
    ensures
        r@ == s@.map_values(
            |c: char|
                if c == from {
                    to
                } else {
                    c
                },
        ),
{
    let v: Vec<char> = chars_of(s);
    let mut out: String = String::new();
    let ghost f = |c: char|
        if c == from {
            to
        } else {
            c
        };
    let ghost goal = v@.map_values(f);
    proof {
        assert(out@ =~= goal.take(0));
    }
    for i in 0..v.len()
        invariant
            f == (|c: char|
                if c == from {
                    to
                } else {
                    c
                }),
            goal == v@.map_values(f),
            out@ == goal.take(i as int),
    {
        if v[i] == from {
            out.push(to);
        } else {
            out.push(v[i]);
        }
        proof {
            assert(goal.take(i + 1) =~= goal.take(i as int).push(f(v@[i as int])));
        }
    }
    proof {
        assert(goal.take(goal.len() as int) =~= goal);
    }
    out
}

fn swap_all(v: &Vec<String>, from: char, to: char) -> (r: Vec<String>)
    ensures
        views(r@) == views(v@).map_values(
            |p: Seq<char>|
                p.map_values(
                    |c: char|
                        if c == from {
                            to
                        } else {
                            c
                        },
                ),
        ),
{
    let mut out: Vec<String> = Vec::new();
    let ghost f = |p: Seq<char>|
        p.map_values(
            |c: char|
                if c == from {
                    to
                } else {
                    c
                },
        );
    let ghost goal = views(v@).map_values(f);
    proof {
        assert(views(out@) =~= goal.take(0));
    }
    for i in 0..v.len()
        invariant
            goal == views(v@).map_values(f),
            forall|p: Seq<char>| #[trigger]
                f(p) == p.map_values(
                    |c: char|
                        if c == from {
                            to
                        } else {
                            c
                        },
                ),
            views(out@) == goal.take(i as int),
    {
        let s: String = swap_char(v[i].as_str(), from, to);
        proof {
            lemma_views_push(out@, s);
            assert(goal[i as int] == f(v@[i as int]@));
            assert(goal.take(i + 1) =~= goal.take(i as int).push(s@));
        }
        out.push(s);
    }
    proof {
        assert(goal.take(goal.len() as int) =~= goal);
    }
    out
}

/// Sorts paths component by component.
pub fn sort_paths(paths: &Vec<String>) -> (r: Vec<String>)
    ensures
        views(r@) == sorted_paths(views(paths@)),
{
    let keys: Vec<String> = swap_all(paths, '/', '\0');
    proof {
        assert(views(keys@) =~= views(paths@).map_values(|p: Seq<char>| path_key(p)));
    }
    let sorted: Vec<String> = sort_strings(&keys);
    let out: Vec<String> = swap_all(&sorted, '\0', '/');
    proof {
        assert(views(out@) =~= sorted_paths(views(paths@)));
    }
    out
}

/// What the model is told of the tool.
pub const GLOB_DESCRIPTION: &'static str = "Find files matching a glob pattern. Searches recursively under the given path. Pattern supports * (any chars except /), ** (any path), ? (single char), and [] character classes. Returns up to 100 matching paths by default.";

/// The JSON schema of the tool's input.
pub const GLOB_SCHEMA: &'static str = "{\"properties\":{\"limit\":{\"default\":100,\"description\":\"Maximum number of results (default 100).\",\"type\":\"integer\"},\"path\":{\"description\":\"Directory to search in. Defaults to current working directory.\",\"type\":\"string\"},\"pattern\":{\"description\":\"Glob pattern to match (e.g. '**/*.rs', 'src/*.toml').\",\"type\":\"string\"}},\"required\":[\"pattern\"],\"type\":\"object\"}";

#[derive(Debug, Clone, Copy)]
pub struct GlobTool {}

impl GlobTool {
    pub fn new() -> GlobTool {
        GlobTool {  }
    }

    pub fn name(&self) -> (r: &'static str)
        ensures
            r@ == "Glob"@,
    {
        "Glob"
    }

    pub fn description(&self) -> (r: &'static str)
        ensures
            r@ == GLOB_DESCRIPTION@,
    {
        GLOB_DESCRIPTION
    }

    pub fn input_schema(&self) -> (r: &'static str)
        ensures
            r@ == GLOB_SCHEMA@,
    {
        GLOB_SCHEMA
    }

    /// Reads what a search is asked for. A pattern is required.
    pub fn request(&self, pattern: &Option<String>, limit: Option<u64>) -> (r: Result<
        GlobRequest,
        ToolError,
    >)
        ensures
            match r {
                Ok(q) => pattern matches Some(p) && p@.len() > 0 && q.pattern@ == p@ && q.limit
                    == result_limit(limit),
                Err(e) => (pattern is None || pattern->0@.len() == 0) && e@ == failed(
                    "pattern is required"@,
                    "missing_parameter"@,
                ),
            },
    {
        match pattern {
            Some(p) => {
                if p.as_str().unicode_len() == 0 {
                    return Err(missing("pattern is required"));
                }
                let n: usize = match limit {
                    Some(n) => if n < 1000 {
                        n as usize
                    } else {
                        1000
                    },
                    None => 100,
                };
                Ok(GlobRequest { pattern: p.clone(), limit: n })
            },
            None => Err(missing("pattern is required")),
        }
    }

    /// The error for a base directory that does not exist.
    pub fn no_such_path(&self, base: &str) -> (r: ToolError)
        ensures
            r@ == failed("Path does not exist: "@ + base@, "path_not_found"@),
    {
        let mut m: String = owned("Path does not exist: ");
        m.append(base);
        crate::tools::registry::fail(m, "path_not_found")
    }

    /// Selects, from the paths of a walk, the first that match.
    pub fn select(&self, q: &GlobRequest, paths: &Vec<String>) -> (r: Vec<String>)
        ensures
            views(r@) == matching(q.pattern@, views(paths@), q.limit as nat),
    {
        let ghost pv = views(paths@);
        let ghost good = |p: Seq<char>| glob_matches(q.pattern@, p);
        let mut out: Vec<String> = Vec::new();
        let mut i: usize = 0;
        proof {
            reveal(Seq::filter);
            assert(views(out@) =~= pv.take(0).filter(good));
        }
        while i < paths.len() && out.len() < q.limit
            invariant
                i <= paths@.len(),
                pv == views(paths@),
                good == (|p: Seq<char>| glob_matches(q.pattern@, p)),
                views(out@) == pv.take(i as int).filter(good),
                out@.len() <= q.limit,
            decreases paths@.len() - i,
        {
            proof {
                reveal(Seq::filter);
                assert(pv.take(i + 1).drop_last() =~= pv.take(i as int));
                assert(pv.take(i + 1).last() == paths@[i as int]@);
            }
            if glob_match(q.pattern.as_str(), paths[i].as_str()) {
                let s: String = paths[i].clone();
                proof {
                    lemma_views_push(out@, s);
                }
                out.push(s);
            }
            i = i + 1;
        }
        proof {
            let rest = pv.skip(i as int);
            assert(pv =~= pv.take(i as int) + rest);
            Seq::filter_distributes_over_add(pv.take(i as int), rest, good);
            if i == paths@.len() {
                reveal(Seq::filter);
                assert(rest =~= Seq::<Seq<char>>::empty());
                assert(pv.filter(good) =~= views(out@));
            }
            assert(views(out@).len() == out@.len());
            assert(at_most(pv.filter(good), q.limit as nat) =~= views(out@));
        }
        out
    }

    /// Reports the paths that a search selected.
    pub fn report(&self, q: &GlobRequest, selected: &Vec<String>) -> (r: ToolOutput)
        ensures
            r@ == text_output(
                glob_report(q.pattern@, sorted_paths(views(selected@)), q.limit as nat),
            ),
    {
        let paths: Vec<String> = sort_paths(selected);
        let ghost pv = views(paths@);
        if paths.len() == 0 {
            let mut m: String = owned("No files found matching: ");
            m.append(q.pattern.as_str());
            return ok_text(m);
        }
        let mut out: String = fmt_u64(paths.len() as u64);
        out.append(" file(s) matching \"");
        out.append(q.pattern.as_str());
        out.append("\":\n\n");
        let ghost head = out@;
        let mut body: String = String::new();
        proof {
            assert(body@ =~= path_lines(pv.take(0)));
        }
        for i in 0..paths.len()
            invariant
                pv == views(paths@),
                body@ == path_lines(pv.take(i as int)),
        {
            body.append(paths[i].as_str());
            body.append("\n");
            proof {
                assert(pv.take(i + 1).drop_last() =~= pv.take(i as int));
                assert(pv.take(i + 1).last() == paths@[i as int]@);
            }
        }
        proof {
            assert(pv.take(pv.len() as int) =~= pv);
        }
        out.append(body.as_str());
        if paths.len() >= q.limit {
            out.append("\n(Results capped at ");
            out.append(fmt_u64(q.limit as u64).as_str());
            out.append(". Use a more specific pattern.)");
        }
        proof {
            assert(out@ =~= glob_report(q.pattern@, pv, q.limit as nat));
        }
        ok_text(out)
    }
}

impl Default for GlobTool {
    fn default() -> GlobTool {
        GlobTool::new()
    }
}

/// Whether a character stands for itself in a pattern.
pub open spec fn is_plain(c: char) -> bool {
    c != '*' && c != '?' && c != '['
}

/// A pattern without wildcards matches just itself.
pub proof fn law_plain_pattern_matches_itself(p: Seq<char>, s: Seq<char>)
    requires
        forall|i: int| 0 <= i < p.len() ==> is_plain(#[trigger] p[i]),
    ensures
        component_matches(p, s) <==> s == p,
    decreases p.len(),
{
    if p.len() > 0 {
        assert(is_plain(p[0]));
        if s.len() > 0 {
            let q = p.skip(1);
            let t = s.skip(1);
            assert forall|i: int| 0 <= i < q.len() implies is_plain(#[trigger] q[i]) by {
                assert(is_plain(p[i + 1]));
            }
            law_plain_pattern_matches_itself(q, t);
            if p[0] == s[0] && q == t {
                assert(p =~= seq![p[0]] + q);
                assert(s =~= seq![s[0]] + t);
            }
        }
    } else if s.len() == 0 {
        assert(s =~= p);
    }
}

/// A question mark stands for one character but the separator.
pub proof fn law_question_mark_is_one_character(p: Seq<char>, c: char, s: Seq<char>)
    ensures
        c != '/' ==> component_matches(seq!['?'] + p, seq![c] + s) == component_matches(p, s),
        !component_matches(seq!['?'] + p, seq!['/'] + s),
        !component_matches(seq!['?'] + p, seq![]),
{
    assert((seq!['?'] + p).skip(1) =~= p);
    assert((seq![c] + s).skip(1) =~= s);
    assert((seq!['/'] + s).skip(1) =~= s);
}

/// A star stands for any run without the separator: what follows it in the
/// pattern matches what follows that run, and a match always comes so.
pub proof fn law_star_is_any_run(p: Seq<char>, s: Seq<char>)
    ensures
        component_matches(seq!['*'] + p, s) <==> exists|k: int|
            0 <= k <= s.len() && !s.take(k).contains('/') && #[trigger] component_matches(
                p,
                s.skip(k),
            ),
    decreases s.len(),
{
    let q = seq!['*'] + p;
    assert(q.skip(1) =~= p);
    assert(s.skip(0) =~= s);
    assert(s.take(0).len() == 0);
    if component_matches(p, s) {
        assert(!s.take(0).contains('/') && component_matches(p, s.skip(0)));
    }
    if s.len() > 0 {
        let t = s.skip(1);
        law_star_is_any_run(p, t);
        if s[0] != '/' && component_matches(q, t) {
            let k = choose|k: int|
                0 <= k <= t.len() && !t.take(k).contains('/') && #[trigger] component_matches(
                    p,
                    t.skip(k),
                );
            assert(t.skip(k) =~= s.skip(k + 1));
            let u = s.take(k + 1);
            if u.contains('/') {
                let z = choose|z: int| 0 <= z < u.len() && u[z] == '/';
                assert(t.take(k)[z - 1] == '/');
            }
            assert(component_matches(p, s.skip(k + 1)));
        }
        if exists|k: int|
            0 <= k <= s.len() && !s.take(k).contains('/') && #[trigger] component_matches(
                p,
                s.skip(k),
            ) {
            let k = choose|k: int|
                0 <= k <= s.len() && !s.take(k).contains('/') && #[trigger] component_matches(
                    p,
                    s.skip(k),
                );
            if k > 0 {
                assert(s.take(k)[0] == s[0]);
                assert(t.skip(k - 1) =~= s.skip(k));
                let u = t.take(k - 1);
                if u.contains('/') {
                    let z = choose|z: int| 0 <= z < u.len() && u[z] == '/';
                    assert(s.take(k)[z + 1] == '/');
                }
                assert(component_matches(p, t.skip(k - 1)));
            }
        }
    }
}

proof fn lemma_close(cls: Seq<char>, p: Seq<char>, i: int)
    requires
        0 <= i <= cls.len(),
        !cls.contains(']'),
    ensures
        class_end(seq!['['] + cls + seq![']'] + p, i + 1) == cls.len() + 1,
    decreases cls.len() - i,
{
    let q = seq!['['] + cls + seq![']'] + p;
    if i < cls.len() {
        assert(q[i + 1] == cls[i]);
        lemma_close(cls, p, i + 1);
    } else {
        assert(q[i + 1] == ']');
    }
}

/// A class stands for one character of those in its brackets, and one that
/// begins with an exclamation mark for one that is not among the rest.
pub proof fn law_class_is_one_of_its_characters(
    cls: Seq<char>,
    p: Seq<char>,
    c: char,
    s: Seq<char>,
)
    requires
        !cls.contains(']'),
        cls.len() > 0 && cls[0] != '!',
    ensures
        component_matches(seq!['['] + cls + seq![']'] + p, seq![c] + s) <==> cls.contains(c)
            && component_matches(p, s),
        component_matches(seq!['[', '!'] + cls + seq![']'] + p, seq![c] + s) <==> !cls.contains(c)
            && component_matches(p, s),
{
    let q = seq!['['] + cls + seq![']'] + p;
    let t = seq![c] + s;
    lemma_close(cls, p, 0);
    let e = (cls.len() + 1) as int;
    assert(q[0] == '[');
    assert(q.subrange(1, e) =~= cls);
    assert(q.skip(e + 1) =~= p);
    assert(t.skip(1) =~= s);
    let not = seq!['!'] + cls;
    if not.contains(']') {
        let k = choose|k: int| 0 <= k < not.len() && not[k] == ']';
        assert(cls[k - 1] == ']');
    }
    let r = seq!['[', '!'] + cls + seq![']'] + p;
    assert(r =~= seq!['['] + not + seq![']'] + p);
    lemma_close(not, p, 0);
    let f = (not.len() + 1) as int;
    assert(r[0] == '[');
    assert(r.subrange(1, f) =~= not);
    assert(r.skip(f + 1) =~= p);
    assert(not.skip(1) =~= cls);
}

/// A search selects just the paths that match, in their order, at most as
/// many as asked for, and leaves none out while there is room.
pub proof fn law_matching_paths_are_selected(
    pattern: Seq<char>,
    paths: Seq<Seq<char>>,
    limit: nat,
    p: Seq<char>,
)
    ensures
        matching(pattern, paths, limit).len() <= limit,
        matching(pattern, paths, limit).contains(p) ==> paths.contains(p) && glob_matches(
            pattern,
            p,
        ),
        matching(pattern, paths, limit).len() < limit && paths.contains(p) && glob_matches(
            pattern,
            p,
        ) ==> matching(pattern, paths, limit).contains(p),
{
    let good = |p: Seq<char>| glob_matches(pattern, p);
    let f = paths.filter(good);
    let r = matching(pattern, paths, limit);
    if r.contains(p) {
        let i = choose|i: int| 0 <= i < r.len() && r[i] == p;
        assert(f[i] == p);
        paths.lemma_filter_pred(good, i);
        assert(f.contains(p));
        paths.lemma_filter_contains_rev(good, p);
    }
    if r.len() < limit && paths.contains(p) && glob_matches(pattern, p) {
        let i = choose|i: int| 0 <= i < paths.len() && paths[i] == p;
        paths.lemma_filter_contains(good, i);
        assert(r =~= f);
    }
}

/// A search gives as many results as asked for, up to a thousand, and a
/// hundred where nothing is asked.
pub proof fn law_result_limit(n: u64, m: u64)
    requires
        n <= m,
    ensures
        n <= 1000 ==> result_limit(Some(n)) == n,
        result_limit(Some(n)) <= result_limit(Some(m)) <= 1000,
        result_limit(None) == 100,
{
}

/// Hidden entries are searched at the base only, and the four directories of
/// noise nowhere; every other entry is.
pub proof fn law_noise_is_left_out(name: Seq<char>, depth: nat)
    requires
        name.len() > 0,
    ensures
        name[0] == '.' && depth > 0 ==> left_out(name, depth),
        name[0] != '.' ==> left_out(name, depth) == left_out(name, 0),
        left_out("node_modules"@, depth) && left_out("build"@, depth) && left_out("dist"@, depth)
            && left_out("target"@, depth),
        left_out(name, 0) ==> name == "node_modules"@ || name == "build"@ || name == "dist"@ || name
            == "target"@,
{
}

/// Sorting paths keeps them all and puts them in order, component by
/// component.
pub proof fn law_sorted_paths(paths: Seq<Seq<char>>, p: Seq<char>)
    requires
        forall|i: int| 0 <= i < paths.len() ==> !(#[trigger] paths[i]).contains('\0'),
    ensures
        sorted_paths(paths).len() == paths.len(),
        sorted_paths(paths).contains(p) <==> paths.contains(p),
        forall|i: int, j: int|
            0 <= i < j < paths.len() ==> !lex_less(
                path_key(#[trigger] sorted_paths(paths)[j]),
                path_key(#[trigger] sorted_paths(paths)[i]),
            ),
{
    broadcast use vstd::seq_lib::group_to_multiset_ensures;

    let keys = paths.map_values(|p: Seq<char>| path_key(p));
    let ks = lex_sorted(keys);
    let r = sorted_paths(paths);
    law_lex_sorted(keys);
    assert forall|k: Seq<char>| #[trigger] ks.contains(k) implies keys.contains(k) by {
        assert(ks.to_multiset().count(k) > 0);
        assert(keys.to_multiset().count(k) > 0);
    }
    assert forall|k: Seq<char>| #[trigger] keys.contains(k) implies ks.contains(k) by {
        assert(keys.to_multiset().count(k) > 0);
        assert(ks.to_multiset().count(k) > 0);
    }
    assert forall|i: int| 0 <= i < r.len() implies path_key(#[trigger] r[i]) == ks[i]
        && paths.contains(r[i]) by {
        assert(ks.contains(ks[i]));
        assert(keys.contains(ks[i]));
        let z = choose|z: int| 0 <= z < keys.len() && keys[z] == ks[i];
        lemma_key_round_trip(paths[z]);
        assert(r[i] == paths[z]);
    }
    assert forall|i: int, j: int| 0 <= i < j < paths.len() implies !lex_less(
        path_key(#[trigger] r[j]),
        path_key(#[trigger] r[i]),
    ) by {
        assert(!lex_less(ks[j], ks[i]));
    }
    if paths.contains(p) {
        let z = choose|z: int| 0 <= z < paths.len() && paths[z] == p;
        lemma_key_round_trip(p);
        assert(keys[z] == path_key(p));
        assert(keys.contains(path_key(p)));
        assert(ks.contains(path_key(p)));
        let i = choose|i: int| 0 <= i < ks.len() && ks[i] == path_key(p);
        assert(r[i] == p);
    }
}

proof fn lemma_key_round_trip(p: Seq<char>)
    requires
        !p.contains('\0'),
    ensures
        key_path(path_key(p)) == p,
{
    assert forall|i: int| 0 <= i < p.len() implies key_path(path_key(p))[i] == p[i] by {
        assert(p.contains(p[i]));
    }
    assert(key_path(path_key(p)) =~= p);
}

proof fn lemma_path_shown(paths: Seq<Seq<char>>, i: int)
    requires
        0 <= i < paths.len(),
    ensures
        shows(path_lines(paths), paths[i] + "\n"@),
    decreases paths.len(),
{
    let before = path_lines(paths.drop_last());
    let last = paths.last() + "\n"@;
    assert(path_lines(paths) =~= before + last + Seq::empty());
    if i == paths.len() - 1 {
        lemma_shows_itself(last);
        lemma_shows(before, last, Seq::empty(), last);
    } else {
        lemma_path_shown(paths.drop_last(), i);
        lemma_shows(Seq::empty(), before, last, paths[i] + "\n"@);
        assert(Seq::<char>::empty() + before + last =~= path_lines(paths));
    }
}

/// The report tells how many paths there are and shows each on a line of its
/// own; that there may be more it says just where the limit was reached.
pub proof fn law_report_shows_every_path(pattern: Seq<char>, paths: Seq<Seq<char>>, limit: nat)
    ensures
        forall|i: int|
            0 <= i < paths.len() ==> shows(
                glob_report(pattern, paths, limit),
                #[trigger] paths[i] + "\n"@,
            ),
        paths.len() > 0 ==> begins(
            glob_report(pattern, paths, limit),
            dec(paths.len()) + " file(s) matching \""@ + pattern + "\":\n\n"@,
        ),
        0 < paths.len() < limit ==> glob_report(pattern, paths, limit) == dec(paths.len())
            + " file(s) matching \""@ + pattern + "\":\n\n"@ + path_lines(paths),
        0 < paths.len() && limit <= paths.len() ==> ends(
            glob_report(pattern, paths, limit),
            "\n(Results capped at "@ + dec(limit) + ". Use a more specific pattern.)"@,
        ),
        paths.len() == 0 ==> glob_report(pattern, paths, limit) == "No files found matching: "@
            + pattern,
{
    let r = glob_report(pattern, paths, limit);
    let head = dec(paths.len()) + " file(s) matching \""@ + pattern + "\":\n\n"@;
    let tail = "\n(Results capped at "@ + dec(limit) + ". Use a more specific pattern.)"@;
    let l = path_lines(paths);
    if paths.len() > 0 {
        assert(r.take(head.len() as int) =~= head);
        if paths.len() >= limit {
            assert(r.skip(r.len() - tail.len()) =~= tail);
            assert(r =~= head + l + tail);
        } else {
            assert(r =~= head + l);
            assert(r =~= head + l + Seq::empty());
        }
    }
    assert forall|i: int| 0 <= i < paths.len() implies shows(r, #[trigger] paths[i] + "\n"@) by {
        lemma_path_shown(paths, i);
        lemma_shows(head, l, tail, paths[i] + "\n"@);
        lemma_shows(head, l, Seq::empty(), paths[i] + "\n"@);
    }
}

} // verus!
