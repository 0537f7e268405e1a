//! Skills in markdown: a file with a few fields at its head, between lines
//! of three dashes, and a body of instructions.
use crate::fixed::first_of;
use crate::json::{json_string, quote};
use crate::strmap::StrMap;
use crate::text::{
    chars_of, joined, lemma_shows, lemma_shows_itself, lemma_views_push, opt_view, owned, same,
    shows, split_at_char, split_char, string_of, trim, trim_bounds, trim_trailing, trimmed, views,
    without_trailing,
};
use crate::tools::registry::{
    fail, failed, missing, ok_text, outcome, text_output, Failed, Output, ToolError, ToolOutput,
};
use vstd::prelude::*;

verus! {

/// One skill.
#[derive(Debug, Clone)]
pub struct MarkdownSkill {
    pub name: String,
    pub description: String,
    pub body: String,
    pub skill_md_path: String,
    pub dir: String,
}

/// A skill as a mathematical value.
pub struct Skill {
    pub name: Seq<char>,
    pub description: Seq<char>,
    pub body: Seq<char>,
    pub skill_md_path: Seq<char>,
    pub dir: Seq<char>,
}

impl View for MarkdownSkill {
    type V = Skill;

    open spec fn view(&self) -> Skill {
        Skill {
            name: self.name@,
            description: self.description@,
            body: self.body@,
            skill_md_path: self.skill_md_path@,
            dir: self.dir@,
        }
    }
}

/// The views of a sequence of skills.
pub open spec fn skill_views(s: Seq<MarkdownSkill>) -> Seq<Skill> {
    s.map_values(|x: MarkdownSkill| x@)
}

/// The lines of a text, without carriage returns at their ends.
pub open spec fn text_lines(raw: Seq<char>) -> Seq<Seq<char>> {
    split_at_char(raw, '\n').map_values(|l: Seq<char>| without_trailing(l, '\r'))
}

/// Whether a line continues a block: it is empty or indented.
pub open spec fn continues(l: Seq<char>) -> bool {
    l.len() == 0 || l[0] == ' ' || l[0] == '\t'
}

/// Where a block that began before line `i` ends.
pub open spec fn block_end(lines: Seq<Seq<char>>, i: int) -> int
    decreases lines.len() - i,
{
    if i >= lines.len() || !continues(lines[i]) {
        i
    } else {
        block_end(lines, i + 1)
    }
}

/// The text of a block so far, extended by the lines from `i` up to `end`:
/// trimmed, with line breaks between them once there is any text.
pub open spec fn block_text(lines: Seq<Seq<char>>, i: int, end: int, acc: Seq<char>) -> Seq<char>
    decreases end - i,
{
    if i >= end {
        acc
    } else {
        block_text(
            lines,
            i + 1,
            end,
            (if acc.len() == 0 {
                acc
            } else {
                acc.push('\n')
            }) + trimmed(lines[i]),
        )
    }
}

/// A value without the quotes around it.
pub open spec fn unquoted(v: Seq<char>) -> Seq<char> {
    if v.len() >= 2 && ((v[0] == '"' && v.last() == '"') || (v[0] == '\'' && v.last() == '\'')) {
        v.subrange(1, v.len() - 1)
    } else {
        v
    }
}

/// The key of a line: what stands before its first colon.
pub open spec fn line_key(l: Seq<char>) -> Seq<char> {
    trimmed(l.take(first_of(l, ':')))
}

/// The value of a line: what stands behind its first colon.
pub open spec fn line_value(l: Seq<char>) -> Seq<char> {
    trimmed(l.skip(first_of(l, ':') + 1))
}

/// Whether a line sets a field: it has a colon, and a key before it.
pub open spec fn sets_field(l: Seq<char>) -> bool {
    first_of(l, ':') < l.len() && line_key(l).len() > 0
}

/// The fields of the lines from `i` on, added to those there are. A value of
/// `|` or `>` stands for the block of indented lines that follows.
pub open spec fn fields_from(
    lines: Seq<Seq<char>>,
    i: int,
    m: Map<Seq<char>, Seq<char>>,
) -> Map<Seq<char>, Seq<char>>
    decreases lines.len() - i when 0 <= i via fields_from_decreases
{
    if i >= lines.len() {
        m
    } else if !sets_field(lines[i]) {
        fields_from(lines, i + 1, m)
    } else {
        let k = line_key(lines[i]);
        let v = line_value(lines[i]);
        if v == "|"@ || v == ">"@ {
            let e = block_end(lines, i + 1);
            fields_from(lines, e, m.insert(k, block_text(lines, i + 1, e, seq![])))
        } else {
            fields_from(lines, i + 1, m.insert(k, unquoted(v)))
        }
    }
}

#[via_fn]
proof fn fields_from_decreases(
    lines: Seq<Seq<char>>,
    i: int,
    m: Map<Seq<char>, Seq<char>>,
) {
    if i < lines.len() {
        lemma_block_end(lines, i + 1);
    }
}

/// The first line from `i` on that holds more than white space.
pub open spec fn first_filled(lines: Seq<Seq<char>>, i: int) -> int
    decreases lines.len() - i,
{
    if i >= lines.len() || trimmed(lines[i]).len() > 0 {
        i
    } else {
        first_filled(lines, i + 1)
    }
}

/// The first line from `i` on that is three dashes.
pub open spec fn next_rule(lines: Seq<Seq<char>>, i: int) -> int
    decreases lines.len() - i,
{
    if i >= lines.len() || trimmed(lines[i]) == "---"@ {
        i
    } else {
        next_rule(lines, i + 1)
    }
}

/// The lines from `i` on, each with a line break behind it.
pub open spec fn body_from(lines: Seq<Seq<char>>, i: int) -> Seq<char>
    decreases lines.len() - i,
{
    if i >= lines.len() {
        seq![]
    } else {
        lines[i] + seq!['\n'] + body_from(lines, i + 1)
    }
}

/// The skill that a file holds, if it holds one: its head stands between the
/// first two lines of three dashes, and names it.
pub open spec fn parsed_skill(raw: Seq<char>, path: Seq<char>, dir: Seq<char>) -> Option<Skill> {
    let lines = text_lines(raw);
    let a = first_filled(lines, 0);
    let b = next_rule(lines, a + 1);
    if a >= lines.len() || trimmed(lines[a]) != "---"@ || b >= lines.len() {
        None
    } else {
        let fields = fields_from(lines.subrange(a + 1, b), 0, Map::empty());
        if !fields.dom().contains("name"@) || trimmed(fields["name"@]).len() == 0 {
            None
        } else {
            Some(
                Skill {
                    name: trimmed(fields["name"@]),
                    description: if fields.dom().contains("description"@) {
                        fields["description"@]
                    } else {
                        seq![]
                    },
                    body: body_from(lines, b + 1),
                    skill_md_path: path,
                    dir,
                },
            )
        }
    }
}

proof fn lemma_block_end(lines: Seq<Seq<char>>, i: int)
    requires
        0 <= i <= lines.len(),
    ensures
        i <= block_end(lines, i) <= lines.len(),
    decreases lines.len() - i,
{
    if i < lines.len() && continues(lines[i]) {
        lemma_block_end(lines, i + 1);
    }
}

fn read_lines(raw: &str) -> (r: Vec<String>)
    ensures
        views(r@) == text_lines(raw@),
{
    let pieces: Vec<String> = split_char(raw, '\n');
    let ghost goal = text_lines(raw@);
    let mut out: Vec<String> = Vec::new();
    proof {
        assert(views(out@) =~= goal.take(0));
    }
    for i in 0..pieces.len()
        invariant
            goal == views(pieces@).map_values(|l: Seq<char>| without_trailing(l, '\r')),
            views(out@) == goal.take(i as int),
    {
        let t: String = trim_trailing(pieces[i].as_str(), '\r');
        proof {
            lemma_views_push(out@, t);
            assert(goal.take(i + 1) =~= goal.take(i as int).push(t@));
        }
        out.push(t);
    }
    proof {
        assert(goal.take(goal.len() as int) =~= goal);
    }
    out
}

fn is_continued(l: &str) -> (r: bool)
    ensures
        r == continues(l@),
{
    let v: Vec<char> = chars_of(l);
    v.len() == 0 || v[0] == ' ' || v[0] == '\t'
}

fn unquote(v: &str) -> (r: String)
    ensures
        r@ == unquoted(v@),
{
    let c: Vec<char> = chars_of(v);
    let n: usize = c.len();
    if n >= 2 && ((c[0] == '"' && c[n - 1] == '"') || (c[0] == '\'' && c[n - 1] == '\'')) {
        string_of(&c, 1, n - 1)
    } else {
        owned(v)
    }
}

/// The key and the value of a line, if it has a colon.
fn split_field(l: &str) -> (r: Option<(String, String)>)
    ensures
        match r {
            Some(kv) => first_of(l@, ':') < l@.len() && kv.0@ == line_key(l@) && kv.1@
                == line_value(l@),
            None => first_of(l@, ':') >= l@.len(),
        },
{
    let v: Vec<char> = chars_of(l);
    let n: usize = v.len();
    let mut d: usize = 0;
    proof {
        assert(v@.skip(0) =~= v@);
    }
    while d < n && v[d] != ':'
        invariant
            n == v@.len(),
            d <= n,
            first_of(v@, ':') == d + first_of(v@.skip(d as int), ':'),
        decreases n - d,
    {
        proof {
            assert(v@.skip(d as int)[0] == v@[d as int]);
            assert(v@.skip(d as int).skip(1) =~= v@.skip(d + 1));
        }
        d = d + 1;
    }
    proof {
        if d < n {
            assert(v@.skip(d as int)[0] == ':');
        }
    }
    if d == n {
        return None;
    }
    let (a, b) = trim_bounds(&v, 0, d);
    let (x, y) = trim_bounds(&v, d + 1, n);
    proof {
        assert(v@.subrange(0, d as int) =~= v@.take(d as int));
        assert(v@.subrange(d + 1, n as int) =~= v@.skip(d + 1));
    }
    Some((string_of(&v, a, b), string_of(&v, x, y)))
}

/// Reads the fields of a file's head.
pub fn parse_frontmatter(lines: &Vec<String>) -> (r: StrMap)
    ensures
        r.wf(),
        r@ == fields_from(views(lines@), 0, Map::empty()),
{
    let ghost lv = views(lines@);
    let mut m: StrMap = StrMap::new();
    let mut i: usize = 0;
    let n: usize = lines.len();
    while i < n
        invariant
            n == lines@.len(),
            lv == views(lines@),
            i <= n,
            m.wf(),
            fields_from(lv, 0, Map::empty()) == fields_from(lv, i as int, m@),
        decreases n - i,
    {
        proof {
            assert(lv[i as int] == lines@[i as int]@);
            lemma_block_end(lv, i + 1);
        }
        match split_field(lines[i].as_str()) {
            Some((key, val)) => {
                if key.as_str().unicode_len() == 0 {
                    i = i + 1;
                } else if same(val.as_str(), "|") || same(val.as_str(), ">") {
                    let ghost end = block_end(lv, i + 1);
                    let ghost goal = block_text(lv, i + 1, end, seq![]);
                    let mut acc: String = String::new();
                    let mut j: usize = i + 1;
                    proof {
                        assert(acc@ =~= seq![]);
                    }
                    while j < n && is_continued(lines[j].as_str())
                        invariant
                            n == lines@.len(),
                            lv == views(lines@),
                            i < j <= n,
                            j <= end,
                            end <= n,
                            block_end(lv, j as int) == end,
                            goal == block_text(lv, j as int, end, acc@),
                        decreases n - j,
                    {
                        proof {
                            assert(lv[j as int] == lines@[j as int]@);
                            lemma_block_end(lv, j + 1);
                        }
                        if acc.as_str().unicode_len() > 0 {
                            acc.push('\n');
                        }
                        acc.append(trim(lines[j].as_str()).as_str());
                        j = j + 1;
                    }
                    proof {
                        if j < n {
                            assert(lv[j as int] == lines@[j as int]@);
                        }
                        assert(end == j);
                    }
                    m.insert(key.as_str(), acc);
                    i = j;
                } else {
                    m.insert(key.as_str(), unquote(val.as_str()));
                    i = i + 1;
                }
            },
            None => {
                i = i + 1;
            },
        }
    }
    m
}

fn body_text(lines: &Vec<String>, from: usize) -> (r: String)
    requires
        from <= lines@.len(),
    ensures
        r@ == body_from(views(lines@), from as int),
{
    let ghost lv = views(lines@);
    let ghost goal = body_from(lv, from as int);
    let mut s: String = String::new();
    let mut i: usize = from;
    proof {
        assert(s@ + body_from(lv, i as int) =~= goal);
    }
    while i < lines.len()
        invariant
            lv == views(lines@),
            from <= i <= lines@.len(),
            s@ + body_from(lv, i as int) == goal,
        decreases lines@.len() - i,
    {
        let ghost before = s@;
        s.append(lines[i].as_str());
        s.push('\n');
        proof {
            assert(lv[i as int] == lines@[i as int]@);
            assert(s@ + body_from(lv, i + 1) =~= before + body_from(lv, i as int));
        }
        i = i + 1;
    }
    proof {
        assert(s@ =~= goal);
    }
    s
}

/// Reads the skill that a file holds, if it holds one.
pub fn parse_skill(raw: &str, path: &str, dir: &str) -> (r: Option<MarkdownSkill>)
    ensures
        match parsed_skill(raw@, path@, dir@) {
            Some(s) => r matches Some(x) && x@ == s,
            None => r is None,
        },
{
    let lines: Vec<String> = read_lines(raw);
    let ghost lv = views(lines@);
    let n: usize = lines.len();
    let mut a: usize = 0;
    while a < n && trim(lines[a].as_str()).as_str().unicode_len() == 0
        invariant
            n == lines@.len(),
            lv == views(lines@),
            a <= n,
            first_filled(lv, 0) == first_filled(lv, a as int),
        decreases n - a,
    {
        proof {
            assert(lv[a as int] == lines@[a as int]@);
        }
        a = a + 1;
    }
    proof {
        if a < n {
            assert(lv[a as int] == lines@[a as int]@);
        }
        assert(first_filled(lv, 0) == a);
    }
    if a >= n || !same(trim(lines[a].as_str()).as_str(), "---") {
        return None;
    }
    let mut b: usize = a + 1;
    while b < n && !same(trim(lines[b].as_str()).as_str(), "---")
        invariant
            n == lines@.len(),
            lv == views(lines@),
            a < b <= n,
            next_rule(lv, a + 1) == next_rule(lv, b as int),
        decreases n - b,
    {
        proof {
            assert(lv[b as int] == lines@[b as int]@);
        }
        b = b + 1;
    }
    proof {
        if b < n {
            assert(lv[b as int] == lines@[b as int]@);
        }
        assert(next_rule(lv, a + 1) == b);
    }
    if b >= n {
        return None;
    }
    let ghost head_lines = lv.subrange(a + 1, b as int);
    let mut head: Vec<String> = Vec::new();
    let mut i: usize = a + 1;
    proof {
        assert(views(head@) =~= lv.subrange(a + 1, i as int));
    }
    while i < b
        invariant
            n == lines@.len(),
            lv == views(lines@),
            a < i <= b < n,
            views(head@) == lv.subrange(a + 1, i as int),
        decreases b - i,
    {
        let l: String = lines[i].clone();
        proof {
            lemma_views_push(head@, l);
            assert(lv.subrange(a + 1, i + 1) =~= lv.subrange(a + 1, i as int).push(l@));
        }
        head.push(l);
        i = i + 1;
    }
    let fields: StrMap = parse_frontmatter(&head);
    let name: String = match fields.get("name") {
        Some(s) => trim(s.as_str()),
        None => {
            return None;
        },
    };
    if name.as_str().unicode_len() == 0 {
        return None;
    }
    let description: String = match fields.get("description") {
        Some(s) => s.clone(),
        None => String::new(),
    };
    let body: String = body_text(&lines, b + 1);
    let x = MarkdownSkill {
        name,
        description,
        body,
        skill_md_path: owned(path),
        dir: owned(dir),
    };
    proof {
        let s = parsed_skill(raw@, path@, dir@)->0;
        assert(x@.description =~= s.description);
    }
    Some(x)
}

/// Whether a skill of a name is there.
pub open spec fn has_skill(ss: Seq<Skill>, name: Seq<char>) -> bool {
    exists|i: int| 0 <= i < ss.len() && (#[trigger] ss[i]).name == name
}

/// The skills after one more: the first of a name stays.
pub open spec fn with_skill(ss: Seq<Skill>, s: Skill) -> Seq<Skill> {
    if has_skill(ss, s.name) {
        ss
    } else {
        ss.push(s)
    }
}

/// No two skills share a name.
pub open spec fn skills_unique(ss: Seq<Skill>) -> bool {
    forall|i: int, j: int|
        0 <= i < j < ss.len() ==> (#[trigger] ss[i]).name != (#[trigger] ss[j]).name
}

/// Every skill has a name.
pub open spec fn skills_named(ss: Seq<Skill>) -> bool {
    forall|i: int| 0 <= i < ss.len() ==> (#[trigger] ss[i]).name.len() > 0
}

/// Where the skill of a name stands.
pub open spec fn skill_at(ss: Seq<Skill>, name: Seq<char>) -> int {
    choose|i: int| 0 <= i < ss.len() && (#[trigger] ss[i]).name == name
}

/// What the model is given for a name.
pub open spec fn skill_outcome(ss: Seq<Skill>, name: Option<Seq<char>>) -> Result<Output, Failed> {
    match name {
        None => Err(failed("'name' is required"@, "missing_parameter"@)),
        Some(n) => if n.len() == 0 {
            Err(failed("'name' is required"@, "missing_parameter"@))
        } else if !has_skill(ss, n) {
            Err(failed("skill not found: "@ + n, "not_found"@))
        } else {
            Ok(text_output(ss[skill_at(ss, n)].body))
        },
    }
}

/// A skill that is loaded later never replaces one of the same name.
pub proof fn law_first_skill_wins(ss: Seq<Skill>, s: Skill, i: int)
    requires
        skills_unique(ss),
        0 <= i < ss.len(),
    ensures
        with_skill(ss, s)[i] == ss[i],
        skills_unique(with_skill(ss, s)),
        has_skill(with_skill(ss, s), s.name),
{
    if !has_skill(ss, s.name) {
        assert(with_skill(ss, s)[ss.len() as int].name == s.name);
    }
}

/// The loaded skills.
#[derive(Debug)]
pub struct MarkdownSkillRegistry {
    pub skills: Vec<MarkdownSkill>,
}

impl View for MarkdownSkillRegistry {
    type V = Seq<Skill>;

    open spec fn view(&self) -> Seq<Skill> {
        skill_views(self.skills@)
    }
}

impl Default for MarkdownSkillRegistry {
    fn default() -> (r: MarkdownSkillRegistry)
        ensures
            r.wf(),
            r@ == Seq::<Skill>::empty(),
    {
        MarkdownSkillRegistry::new()
    }
}

impl MarkdownSkillRegistry {
    /// The invariant: every skill has a name, and no two share one.
    pub open spec fn wf(&self) -> bool {
        skills_named(self@) && skills_unique(self@)
    }

    pub fn new() -> (r: MarkdownSkillRegistry)
        ensures
            r.wf(),
            r@ == Seq::<Skill>::empty(),
    {
        let r = MarkdownSkillRegistry { skills: Vec::new() };
        proof {
            assert(r@ =~= Seq::empty());
        }
        r
    }

    fn position(&self, name: &str) -> (r: Option<usize>)
        ensures
            match r {
                Some(i) => i < self@.len() && self@[i as int].name == name@ && self@.len()
                    == self.skills@.len(),
                None => !has_skill(self@, name@),
            },
    {
        for i in 0..self.skills.len()
            invariant
                self@.len() == self.skills@.len(),
                forall|k: int| 0 <= k < i ==> (#[trigger] self@[k]).name != name@,
        {
            if same(self.skills[i].name.as_str(), name) {
                proof {
                    assert(self@[i as int].name == name@);
                }
                return Some(i);
            }
        }
        None
    }

    /// Adds a skill unless one of its name is there; tells whether it was
    /// added.
    pub fn add_skill(&mut self, skill: MarkdownSkill) -> (r: bool)
        requires
            old(self).wf(),
            skill@.name.len() > 0,
        ensures
            final(self).wf(),
            r == !has_skill(old(self)@, skill@.name),
            final(self)@ == with_skill(old(self)@, skill@),
    {
        match self.position(skill.name.as_str()) {
            Some(i) => {
                proof {
                    assert(self@[i as int].name == skill@.name);
                }
                false
            },
            None => {
                let ghost before = self@;
                self.skills.push(skill);
                proof {
                    assert(self@ =~= before.push(skill@));
                }
                true
            },
        }
    }

    /// The skill of a name.
    pub fn find(&self, name: &str) -> (r: Option<&MarkdownSkill>)
        ensures
            match r {
                Some(s) => s@.name == name@ && self@.contains(s@),
                None => !has_skill(self@, name@),
            },
    {
        match self.position(name) {
            Some(i) => {
                proof {
                    assert(self@[i as int] == self.skills@[i as int]@);
                }
                Some(&self.skills[i])
            },
            None => None,
        }
    }

    /// All skills, in the order in which they were loaded.
    pub fn all(&self) -> (r: &[MarkdownSkill])
        ensures
            skill_views(r@) == self@,
    {
        self.skills.as_slice()
    }
}

/// What the model is told of the tool.
pub const SKILL_DESCRIPTION: &'static str = "Look up a markdown-based skill by name and return its full SKILL.md body. Each skill is one folder containing a SKILL.md with YAML frontmatter (name, description) plus a markdown body of instructions.";

/// The names of some skills.
pub open spec fn skill_names(ss: Seq<Skill>) -> Seq<Seq<char>> {
    ss.map_values(|s: Skill| s.name)
}

/// JSON strings with commas between them.
pub open spec fn strings_json(s: Seq<Seq<char>>) -> Seq<char>
    decreases s.len(),
{
    if s.len() == 0 {
        seq![]
    } else if s.len() == 1 {
        json_string(s[0])
    } else {
        strings_json(s.drop_last()) + ","@ + json_string(s.last())
    }
}

/// The JSON schema of the input: a name, one of the loaded ones where there
/// are any.
pub open spec fn skill_schema(ss: Seq<Skill>) -> Seq<char> {
    "{\"properties\":{\"name\":{\"description\":"@ + (if ss.len() == 0 {
        "\"Skill name. (No skills are currently loaded.)\""@
    } else {
        "\"Skill name. Loaded skills: see system prompt.\",\"enum\":["@ + strings_json(
            skill_names(ss),
        ) + "]"@
    }) + ",\"type\":\"string\"}},\"required\":[\"name\"],\"type\":\"object\"}"@
}

/// Gives the model access to the loaded skills.
#[derive(Debug)]
pub struct SkillMdTool {
    pub registry: MarkdownSkillRegistry,
}

impl SkillMdTool {
    pub fn new(registry: MarkdownSkillRegistry) -> (r: SkillMdTool)
        ensures
            r.registry == registry,
    {
        SkillMdTool { registry }
    }

    pub fn name(&self) -> (r: &'static str)
        ensures
            r@ == "Skill"@,
    {
        "Skill"
    }

    pub fn description(&self) -> (r: &'static str)
        ensures
            r@ == SKILL_DESCRIPTION@,
    {
        SKILL_DESCRIPTION
    }

    pub fn input_schema(&self) -> (r: String)
        ensures
            r@ == skill_schema(self.registry@),
    {
        let ghost names = skill_names(self.registry@);
        let skills: &Vec<MarkdownSkill> = &self.registry.skills;
        let mut s: String = owned("{\"properties\":{\"name\":{\"description\":");
        if skills.len() == 0 {
            s.append("\"Skill name. (No skills are currently loaded.)\"");
        } else {
            s.append("\"Skill name. Loaded skills: see system prompt.\",\"enum\":[");
            let mut list: String = String::new();
            proof {
                assert(list@ =~= strings_json(names.take(0)));
            }
            for i in 0..skills.len()
                invariant
                    skills@ == self.registry.skills@,
                    names == skill_names(self.registry@),
                    list@ == strings_json(names.take(i as int)),
            {
                let ghost before = list@;
                proof {
                    assert(names.take(i + 1).drop_last() =~= names.take(i as int));
                    assert(names.take(i + 1).last() == skills@[i as int].name@);
                }
                if i > 0 {
                    list.append(",");
                }
                list.append(quote(skills[i].name.as_str()).as_str());
                proof {
                    if i > 0 {
                        assert(list@ =~= before + ","@ + json_string(names[i as int]));
                    } else {
                        assert(list@ =~= json_string(names[0]));
                    }
                }
            }
            proof {
                assert(names.take(names.len() as int) =~= names);
            }
            s.append(list.as_str());
            s.append("]");
        }
        s.append(",\"type\":\"string\"}},\"required\":[\"name\"],\"type\":\"object\"}");
        proof {
            assert(s@ =~= skill_schema(self.registry@));
        }
        s
    }

    /// Gives the model the body of a skill. A name is required.
    pub fn execute(&self, name: &Option<String>) -> (r: Result<ToolOutput, ToolError>)
        requires
            self.registry.wf(),
        ensures
            outcome(r) == skill_outcome(self.registry@, opt_view(*name)),
    {
        let n: &String = match name {
            Some(n) => n,
            None => {
                return Err(missing("'name' is required"));
            },
        };
        if n.as_str().unicode_len() == 0 {
            return Err(missing("'name' is required"));
        }
        match self.registry.position(n.as_str()) {
            Some(i) => {
                proof {
                    assert(self.registry@[i as int] == self.registry.skills@[i as int]@);
                    assert(skill_at(self.registry@, n@) == i);
                }
                Ok(ok_text(self.registry.skills[i].body.clone()))
            },
            None => {
                let mut m: String = owned("skill not found: ");
                m.append(n.as_str());
                Err(fail(m, "not_found"))
            },
        }
    }
}

proof fn lemma_first_colon(k: Seq<char>, v: Seq<char>)
    requires
        !k.contains(':'),
    ensures
        first_of(k + seq![':'] + v, ':') == k.len(),
    decreases k.len(),
{
    let l = k + seq![':'] + v;
    if k.len() > 0 {
        assert(k.contains(k[0]));
        let t = k.skip(1);
        if t.contains(':') {
            let z = choose|z: int| 0 <= z < t.len() && t[z] == ':';
            assert(k[z + 1] == ':');
        }
        lemma_first_colon(t, v);
        assert(l.skip(1) =~= t + seq![':'] + v);
    } else {
        assert(l[0] == ':');
    }
}

/// A line of a key, a colon and a value sets that key to that value, without
/// the white space and the quotes around it; the value may hold colons.
pub proof fn law_line_sets_a_field(k: Seq<char>, v: Seq<char>, m: Map<Seq<char>, Seq<char>>)
    requires
        !k.contains(':'),
        trimmed(k).len() > 0,
        trimmed(v) != "|"@,
        trimmed(v) != ">"@,
    ensures
        fields_from(seq![k + seq![':'] + v], 0, m) == m.insert(trimmed(k), unquoted(trimmed(v))),
{
    let l = k + seq![':'] + v;
    lemma_first_colon(k, v);
    assert(l.take(k.len() as int) =~= k);
    assert(l.skip((k.len() + 1) as int) =~= v);
    let lines = seq![l];
    let n = m.insert(trimmed(k), unquoted(trimmed(v)));
    assert(lines[0] == l);
    assert(fields_from(lines, 1, n) == n);
}

/// A line without a colon sets nothing.
pub proof fn law_other_lines_set_nothing(l: Seq<char>, m: Map<Seq<char>, Seq<char>>)
    requires
        !l.contains(':'),
    ensures
        fields_from(seq![l], 0, m) == m,
{
    lemma_no_colon(l);
    let lines = seq![l];
    assert(lines[0] == l);
    assert(fields_from(lines, 1, m) == m);
}

proof fn lemma_no_colon(l: Seq<char>)
    requires
        !l.contains(':'),
    ensures
        first_of(l, ':') == l.len(),
    decreases l.len(),
{
    if l.len() > 0 {
        assert(l.contains(l[0]));
        let t = l.skip(1);
        if t.contains(':') {
            let z = choose|z: int| 0 <= z < t.len() && t[z] == ':';
            assert(l[z + 1] == ':');
        }
        lemma_no_colon(t);
    }
}

/// Quotes around a value go, of either kind, once; a value without them
/// stays as it is.
pub proof fn law_quotes_are_removed(v: Seq<char>)
    ensures
        unquoted(seq!['"'] + v + seq!['"']) == v,
        unquoted(seq!['\''] + v + seq!['\'']) == v,
        v.len() > 0 && v[0] != '"' && v[0] != '\'' ==> unquoted(v) == v,
        v.len() > 0 && v.last() != '"' && v.last() != '\'' ==> unquoted(v) == v,
{
    let a = seq!['"'] + v + seq!['"'];
    let b = seq!['\''] + v + seq!['\''];
    assert(a.last() == '"' && b.last() == '\'');
    assert(a.subrange(1, a.len() - 1) =~= v);
    assert(b.subrange(1, b.len() - 1) =~= v);
}

/// The head of a file ends at the first line of three dashes behind its
/// beginning.
pub proof fn law_head_ends_at_the_next_rule(lines: Seq<Seq<char>>, i: int)
    requires
        0 <= i <= lines.len(),
    ensures
        i <= next_rule(lines, i) <= lines.len(),
        next_rule(lines, i) < lines.len() ==> trimmed(lines[next_rule(lines, i)]) == "---"@,
        forall|k: int| i <= k < next_rule(lines, i) ==> trimmed(#[trigger] lines[k]) != "---"@,
        i <= first_filled(lines, i) <= lines.len(),
        first_filled(lines, i) < lines.len() ==> trimmed(lines[first_filled(lines, i)]).len() > 0,
        forall|k: int|
            i <= k < first_filled(lines, i) ==> trimmed(#[trigger] lines[k]).len() == 0,
    decreases lines.len() - i,
{
    if i < lines.len() {
        law_head_ends_at_the_next_rule(lines, i + 1);
    }
}

/// The body of a skill is every line behind its head, in order, each with
/// its line break.
pub proof fn law_body_is_the_rest(lines: Seq<Seq<char>>, i: int)
    requires
        0 <= i <= lines.len(),
    ensures
        i == lines.len() ==> body_from(lines, i).len() == 0,
        i < lines.len() ==> body_from(lines, i) == joined(lines.skip(i), seq!['\n']).push('\n'),
    decreases lines.len() - i,
{
    if i < lines.len() {
        law_body_is_the_rest(lines, i + 1);
        let s = lines.skip(i);
        let t = lines.skip(i + 1);
        assert(s =~= seq![lines[i]] + t);
        if i + 1 < lines.len() {
            lemma_joined_front(lines[i], t, seq!['\n']);
            assert(body_from(lines, i) =~= joined(s, seq!['\n']).push('\n'));
        } else {
            assert(s =~= seq![lines[i]]);
            assert(body_from(lines, i) =~= joined(s, seq!['\n']).push('\n'));
        }
    }
}

proof fn lemma_joined_front(x: Seq<char>, t: Seq<Seq<char>>, sep: Seq<char>)
    requires
        t.len() > 0,
    ensures
        joined(seq![x] + t, sep) == x + sep + joined(t, sep),
    decreases t.len(),
{
    let s = seq![x] + t;
    assert(s.drop_last() =~= seq![x] + t.drop_last());
    assert(s.last() == t.last());
    if t.len() == 1 {
        assert(s.drop_last() =~= seq![x]);
        assert(joined(s.drop_last(), sep) == x);
    } else {
        lemma_joined_front(x, t.drop_last(), sep);
        assert(joined(s, sep) =~= x + sep + joined(t, sep));
    }
}

/// A skill that is read has a name, and knows where it came from; a file
/// that does not begin with a line of three dashes holds none.
pub proof fn law_skill_is_named(raw: Seq<char>, path: Seq<char>, dir: Seq<char>)
    ensures
        parsed_skill(raw, path, dir) matches Some(s) ==> s.name.len() > 0 && s.skill_md_path == path
            && s.dir == dir,
        ({
            let lines = text_lines(raw);
            let a = first_filled(lines, 0);
            a < lines.len() && trimmed(lines[a]) != "---"@ ==> parsed_skill(raw, path, dir) is None
        }),
{
}

/// The model is given the body of the skill it names, and told where there
/// is none of that name.
pub proof fn law_named_skill_is_given(ss: Seq<Skill>, i: int, name: Seq<char>)
    requires
        skills_unique(ss),
        skills_named(ss),
        0 <= i < ss.len(),
    ensures
        skill_outcome(ss, Some(ss[i].name)) matches Ok(o) && o.content == ss[i].body,
        name.len() > 0 && (forall|k: int| 0 <= k < ss.len() ==> (#[trigger] ss[k]).name != name)
            ==> (skill_outcome(ss, Some(name)) matches Err(f) && f.code == Some("not_found"@)),
        skill_outcome(ss, None) matches Err(f) && f.code == Some("missing_parameter"@),
{
    let k = skill_at(ss, ss[i].name);
    assert(0 <= k < ss.len() && ss[k].name == ss[i].name);
    if k < i {
        assert(ss[k].name != ss[i].name);
    } else if i < k {
        assert(ss[i].name != ss[k].name);
    }
}

proof fn lemma_string_shown(s: Seq<Seq<char>>, i: int)
    requires
        0 <= i < s.len(),
    ensures
        shows(strings_json(s), json_string(s[i])),
    decreases s.len(),
{
    let j = json_string(s[i]);
    lemma_shows_itself(j);
    if s.len() > 1 {
        let before = strings_json(s.drop_last());
        if i == s.len() - 1 {
            lemma_shows(before + ","@, j, Seq::empty(), j);
            assert(before + ","@ + j + Seq::empty() =~= strings_json(s));
        } else {
            lemma_string_shown(s.drop_last(), i);
            lemma_shows(Seq::empty(), before, ","@ + json_string(s.last()), j);
            assert(Seq::empty() + before + (","@ + json_string(s.last())) =~= strings_json(s));
        }
    }
}

/// The schema names every skill that is loaded.
pub proof fn law_schema_names_every_skill(ss: Seq<Skill>, i: int)
    requires
        0 <= i < ss.len(),
    ensures
        shows(skill_schema(ss), json_string(ss[i].name)),
{
    let names = skill_names(ss);
    lemma_string_shown(names, i);
    let a = "{\"properties\":{\"name\":{\"description\":"@
        + "\"Skill name. Loaded skills: see system prompt.\",\"enum\":["@;
    let b = "]"@ + ",\"type\":\"string\"}},\"required\":[\"name\"],\"type\":\"object\"}"@;
    assert(names[i] == ss[i].name);
    lemma_shows(a, strings_json(names), b, json_string(ss[i].name));
    assert(skill_schema(ss) =~= a + strings_json(names) + b);
}

/// A block takes in the lines that are empty or indented, up to the first
/// that is neither.
pub proof fn law_block_of_indented_lines(lines: Seq<Seq<char>>, i: int)
    requires
        0 <= i <= lines.len(),
    ensures
        i <= block_end(lines, i) <= lines.len(),
        forall|k: int|
            i <= k < block_end(lines, i) ==> (#[trigger] lines[k]).len() == 0 || lines[k][0] == ' '
                || lines[k][0] == '\t',
        block_end(lines, i) < lines.len() ==> ({
            let l = lines[block_end(lines, i)];
            l.len() > 0 && l[0] != ' ' && l[0] != '\t'
        }),
    decreases lines.len() - i,
{
    if i < lines.len() && continues(lines[i]) {
        law_block_of_indented_lines(lines, i + 1);
    }
}

/// The text of a block is that of its lines without the white space around
/// them, with line breaks between them once there is any.
pub proof fn law_block_text(lines: Seq<Seq<char>>, i: int, acc: Seq<char>)
    requires
        0 <= i < lines.len(),
    ensures
        block_text(lines, i, i, acc) == acc,
        block_text(lines, i, i + 1, seq![]) == trimmed(lines[i]),
        acc.len() > 0 ==> block_text(lines, i, i + 1, acc) == acc.push('\n') + trimmed(lines[i]),
{
    assert(Seq::<char>::empty() + trimmed(lines[i]) =~= trimmed(lines[i]));
    reveal_with_fuel(block_text, 2);
}

} // verus!
