//! What the memory engine asks of a language model, and what it does
//! without one.
use crate::json::{json_string, quote};
use crate::text::{
    begins, begins_at, byte_len, chars_of, ends, opt_view, owned, string_of, trim, trim_bounds,
    trimmed, views,
};
use vstd::prelude::*;
use vstd::utf8::*;

verus! {

/// An entity mentioned by an extracted fact.
#[derive(Debug, Clone)]
pub struct ExtractedEntity {
    pub text: String,
    pub entity_type: Option<String>,
}

/// The views of a sequence of mentioned entities.
pub open spec fn entity_views(s: Seq<ExtractedEntity>) -> Seq<(Seq<char>, Option<Seq<char>>)> {
    s.map_values(|e: ExtractedEntity| (e.text@, opt_view(e.entity_type)))
}

/// One fact extracted from a text.
#[derive(Debug, Clone)]
pub struct ExtractedFact {
    pub text: String,
    /// `world` or `experience`.
    pub fact_type: String,
    pub entities: Vec<ExtractedEntity>,
    pub when: Option<String>,
    pub where_: Option<String>,
    pub who: Option<String>,
}

/// A fact as a mathematical value.
pub struct Fact {
    pub text: Seq<char>,
    pub fact_type: Seq<char>,
    pub entities: Seq<(Seq<char>, Option<Seq<char>>)>,
    pub when: Option<Seq<char>>,
    pub where_: Option<Seq<char>>,
    pub who: Option<Seq<char>>,
}

impl View for ExtractedFact {
    type V = Fact;

    open spec fn view(&self) -> Fact {
        Fact {
            text: self.text@,
            fact_type: self.fact_type@,
            entities: entity_views(self.entities@),
            when: opt_view(self.when),
            where_: opt_view(self.where_),
            who: opt_view(self.who),
        }
    }
}

/// The views of a sequence of facts.
pub open spec fn fact_views(s: Seq<ExtractedFact>) -> Seq<Fact> {
    s.map_values(|f: ExtractedFact| f@)
}

/// An observation that a consolidation creates or updates.
#[derive(Debug, Clone)]
pub struct ConsolidatedObservation {
    /// The observation to update, if it is an update.
    pub id: Option<String>,
    pub text: String,
    /// The memories that support the observation.
    pub source_memory_ids: Vec<String>,
    pub tags: Vec<String>,
}

/// A consolidated observation as a mathematical value.
pub struct Consolidated {
    pub id: Option<Seq<char>>,
    pub text: Seq<char>,
    pub source_memory_ids: Seq<Seq<char>>,
    pub tags: Seq<Seq<char>>,
}

impl View for ConsolidatedObservation {
    type V = Consolidated;

    open spec fn view(&self) -> Consolidated {
        Consolidated {
            id: opt_view(self.id),
            text: self.text@,
            source_memory_ids: views(self.source_memory_ids@),
            tags: views(self.tags@),
        }
    }
}

/// The views of a sequence of consolidated observations.
pub open spec fn consolidated_views(s: Seq<ConsolidatedObservation>) -> Seq<Consolidated> {
    s.map_values(|c: ConsolidatedObservation| c@)
}

/// What a consolidation decided.
#[derive(Debug, Clone)]
pub struct ConsolidationDecision {
    pub creates: Vec<ConsolidatedObservation>,
    pub updates: Vec<ConsolidatedObservation>,
    /// Observations to delete outright.
    pub deletes: Vec<String>,
}

impl ConsolidationDecision {
    /// Whether nothing was decided.
    pub open spec fn is_empty_decision(&self) -> bool {
        self.creates@.len() == 0 && self.updates@.len() == 0 && self.deletes@.len() == 0
    }
}

impl Default for ConsolidationDecision {
    fn default() -> (r: ConsolidationDecision)
        ensures
            r.is_empty_decision(),
    {
        ConsolidationDecision { creates: Vec::new(), updates: Vec::new(), deletes: Vec::new() }
    }
}

/// Whether a character ends a sentence.
pub open spec fn sentence_end(c: char) -> bool {
    c == '.' || c == '!' || c == '?' || c == '\n'
}

/// The state of a split into sentences: the closed ones and the open one.
pub open spec fn sentence_scan(s: Seq<char>) -> (Seq<Seq<char>>, Seq<char>)
    decreases s.len(),
{
    if s.len() == 0 {
        (seq![], seq![])
    } else {
        let (out, open) = sentence_scan(s.drop_last());
        if sentence_end(s.last()) {
            (out.push(open), seq![])
        } else {
            (out, open.push(s.last()))
        }
    }
}

/// The fact that a sentence alone stands for.
pub open spec fn world_fact(text: Seq<char>) -> Fact {
    Fact {
        text,
        fact_type: "world"@,
        entities: Seq::empty(),
        when: None,
        where_: None,
        who: None,
    }
}

/// The facts in some sentences: each that has at least four bytes without
/// the white space at its ends.
pub open spec fn sentence_facts(pieces: Seq<Seq<char>>) -> Seq<Fact>
    decreases pieces.len(),
{
    if pieces.len() == 0 {
        seq![]
    } else {
        let before = sentence_facts(pieces.drop_last());
        let t = trimmed(pieces.last());
        if encode_utf8(t).len() >= 4 {
            before.push(world_fact(t))
        } else {
            before
        }
    }
}

/// The facts that can be read off a text without a language model.
pub open spec fn plain_facts(s: Seq<char>) -> Seq<Fact> {
    let (out, open) = sentence_scan(s);
    sentence_facts(out.push(open))
}

/// The model that is used when none is configured: it splits sentences and
/// decides nothing.
#[derive(Debug, Clone, Copy)]
pub struct NoopLlm {}

impl Default for NoopLlm {
    fn default() -> NoopLlm {
        NoopLlm {  }
    }
}

fn push_sentence(out: &mut Vec<ExtractedFact>, v: &Vec<char>, from: usize, to: usize)
    requires
        from <= to <= v@.len(),
    ensures
        ({
            let t = trimmed(v@.subrange(from as int, to as int));
            fact_views(final(out)@) == if encode_utf8(t).len() >= 4 {
                fact_views(old(out)@).push(world_fact(t))
            } else {
                fact_views(old(out)@)
            }
        }),
{
    let (a, b) = trim_bounds(v, from, to);
    let text: String = string_of(v, a, b);
    if byte_len(text.as_str()) >= 4 {
        let f = ExtractedFact {
            text,
            fact_type: owned("world"),
            entities: Vec::new(),
            when: None,
            where_: None,
            who: None,
        };
        proof {
            assert(f@.entities =~= Seq::empty());
            assert(fact_views(out@.push(f)) =~= fact_views(out@).push(f@));
        }
        out.push(f);
    }
}

impl NoopLlm {
    pub fn provider_name(&self) -> (r: &'static str)
        ensures
            r@ == "noop"@,
    {
        "noop"
    }

    /// Splits at sentence ends and takes every sentence of some length as a
    /// fact about the world.
    pub fn extract_facts(&self, text: &str) -> (r: Vec<ExtractedFact>)
        ensures
            fact_views(r@) == plain_facts(text@),
    {
        let v: Vec<char> = chars_of(text);
        let n: usize = v.len();
        let mut out: Vec<ExtractedFact> = Vec::new();
        let mut start: usize = 0;
        let ghost mut pieces: Seq<Seq<char>> = seq![];
        proof {
            assert(fact_views(out@) =~= seq![]);
            assert(v@.subrange(0, 0) =~= seq![]);
        }
        for i in 0..n
            invariant
                n == v@.len(),
                start <= i,
                (pieces, v@.subrange(start as int, i as int)) == sentence_scan(v@.take(i as int)),
                fact_views(out@) == sentence_facts(pieces),
        {
            proof {
                assert(v@.take(i + 1).drop_last() =~= v@.take(i as int));
                assert(v@.take(i + 1).last() == v@[i as int]);
            }
            let c: char = v[i];
            if c == '.' || c == '!' || c == '?' || c == '\n' {
                push_sentence(&mut out, &v, start, i);
                proof {
                    let piece = v@.subrange(start as int, i as int);
                    assert(pieces.push(piece).drop_last() =~= pieces);
                    pieces = pieces.push(piece);
                    assert(v@.subrange(i + 1, i + 1) =~= seq![]);
                }
                start = i + 1;
            } else {
                proof {
                    assert(v@.subrange(start as int, i + 1) =~= v@.subrange(
                        start as int,
                        i as int,
                    ).push(c));
                }
            }
        }
        push_sentence(&mut out, &v, start, n);
        proof {
            assert(v@.take(n as int) =~= v@);
            let piece = v@.subrange(start as int, n as int);
            assert(pieces.push(piece).drop_last() =~= pieces);
        }
        out
    }

    /// Decides nothing.
    pub fn consolidate(
        &self,
        _sources: &Vec<(String, String)>,
        _existing_observations: &Vec<(String, String)>,
        _mission: &Option<String>,
    ) -> (r: ConsolidationDecision)
        ensures
            r.is_empty_decision(),
    {
        ConsolidationDecision { creates: Vec::new(), updates: Vec::new(), deletes: Vec::new() }
    }
}

/// A text without the code fences at its end.
pub open spec fn without_end_fences(s: Seq<char>) -> Seq<char>
    decreases s.len(),
{
    if s.len() >= 3 && s[s.len() - 1] == '`' && s[s.len() - 2] == '`' && s[s.len() - 3] == '`' {
        without_end_fences(s.take(s.len() - 3))
    } else {
        s
    }
}

/// A text without the code fence around it.
pub open spec fn unfenced(s: Seq<char>) -> Seq<char> {
    let t = trimmed(s);
    if begins(t, "```json"@) {
        trimmed(without_end_fences(t.skip(7)))
    } else if begins(t, "```"@) {
        trimmed(without_end_fences(t.skip(3)))
    } else {
        t
    }
}

fn cut_fences(v: &Vec<char>, from: usize) -> (r: String)
    requires
        from <= v@.len(),
    ensures
        r@ == trimmed(without_end_fences(v@.skip(from as int))),
{
    let mut end: usize = v.len();
    let ghost goal = without_end_fences(v@.skip(from as int));
    proof {
        assert(v@.subrange(from as int, end as int) =~= v@.skip(from as int));
    }
    while end >= 3 && end - 3 >= from && v[end - 1] == '`' && v[end - 2] == '`' && v[end - 3]
        == '`'
        invariant
            from <= end <= v@.len(),
            goal == without_end_fences(v@.subrange(from as int, end as int)),
        decreases end,
    {
        proof {
            let w = v@.subrange(from as int, end as int);
            assert(w.take(w.len() - 3) =~= v@.subrange(from as int, end - 3));
        }
        end = end - 3;
    }
    let (a, b) = trim_bounds(v, from, end);
    string_of(v, a, b)
}

/// Removes the code fence that models tend to put around JSON.
pub fn strip_code_fence(s: &str) -> (r: String)
    ensures
        r@ == unfenced(s@),
{
    let t: String = trim(s);
    let v: Vec<char> = chars_of(t.as_str());
    proof {
        reveal_strlit("```json");
        reveal_strlit("```");
        assert("```json"@.len() == 7);
        assert("```"@.len() == 3);
        assert(v@.skip(0) =~= v@);
    }
    if begins_at(&v, 0, "```json") {
        cut_fences(&v, 7)
    } else if begins_at(&v, 0, "```") {
        cut_fences(&v, 3)
    } else {
        t
    }
}

/// The instruction under which a model extracts facts.
pub const EXTRACT_SYSTEM: &'static str = "You extract atomic facts from input text for an agent memory system.\nReturn ONLY JSON in the form: {\"facts\": [{\"text\": str, \"fact_type\": \"world\" | \"experience\", \"entities\": [{\"text\": str, \"entity_type\": str?}], \"when\": str?, \"where_\": str?, \"who\": str?}]}.\nRules:\n- One fact per object. Self-contained, single-clause sentences.\n- \"world\" = durable third-person facts. \"experience\" = first-person actions / interactions.\n- Skip vague or empty input. If the input has no facts, return {\"facts\": []}.\n- Do NOT include explanations, markdown, or any prose outside the JSON.";

/// The instruction under which a model consolidates memories.
pub const CONSOLIDATE_SYSTEM: &'static str = "You consolidate a batch of source memories into long-lived observations for an agent memory system.\nYou will receive: (1) a list of source memories with ids and text, (2) the set of existing observations with ids and text, (3) an optional mission string for the agent.\nReturn ONLY JSON in the form: {\"creates\": [{\"text\": str, \"source_memory_ids\": [str], \"tags\": [str]}], \"updates\": [{\"id\": str, \"text\": str, \"source_memory_ids\": [str], \"tags\": [str]}], \"deletes\": [str]}.\nRules:\n- One observation per facet. Never restate the same idea in two observations.\n- An update merges new evidence into an existing observation by id; preserve its meaning.\n- A delete removes an existing observation that has been refuted or made redundant.\n- Cite source_memory_ids drawn from the source list.\n- Never invent ids; never include source ids that were not supplied.";

/// The views of a sequence of pairs of strings.
pub open spec fn pair_views(s: Seq<(String, String)>) -> Seq<(Seq<char>, Seq<char>)> {
    s.map_values(|p: (String, String)| (p.0@, p.1@))
}

/// The JSON text of a memory: its identifier and its text.
pub open spec fn memory_json(m: (Seq<char>, Seq<char>)) -> Seq<char> {
    "{\"id\":"@ + json_string(m.0) + ",\"text\":"@ + json_string(m.1) + "}"@
}

/// The JSON texts of some memories, with commas between them.
pub open spec fn memories_json(s: Seq<(Seq<char>, Seq<char>)>) -> Seq<char>
    decreases s.len(),
{
    if s.len() == 0 {
        seq![]
    } else if s.len() == 1 {
        memory_json(s[0])
    } else {
        memories_json(s.drop_last()) + ","@ + memory_json(s.last())
    }
}

/// The JSON text of a consolidation request: an object with the existing
/// observations, the mission, if there is one, and the sources.
pub open spec fn consolidation_json(
    mission: Option<Seq<char>>,
    sources: Seq<(Seq<char>, Seq<char>)>,
    existing: Seq<(Seq<char>, Seq<char>)>,
) -> Seq<char> {
    "{\"existing_observations\":["@ + memories_json(existing) + "],\"mission\":"@ + (match mission {
        Some(m) => json_string(m),
        None => "null"@,
    }) + ",\"sources\":["@ + memories_json(sources) + "]}"@
}

fn memories_text(v: &Vec<(String, String)>) -> (r: String)
    ensures
        r@ == memories_json(pair_views(v@)),
{
    let ghost pv = pair_views(v@);
    let mut s: String = String::new();
    proof {
        assert(s@ =~= memories_json(pv.take(0)));
    }
    for i in 0..v.len()
        invariant
            pv == pair_views(v@),
            s@ == memories_json(pv.take(i as int)),
    {
        let ghost before = s@;
        proof {
            assert(pv.take(i + 1).drop_last() =~= pv.take(i as int));
            assert(pv.take(i + 1).last() == (v@[i as int].0@, v@[i as int].1@));
        }
        if i > 0 {
            s.append(",");
        }
        s.append("{\"id\":");
        s.append(quote(v[i].0.as_str()).as_str());
        s.append(",\"text\":");
        s.append(quote(v[i].1.as_str()).as_str());
        s.append("}");
        proof {
            if i > 0 {
                assert(s@ =~= before + ","@ + memory_json(pv[i as int]));
            } else {
                assert(s@ =~= memory_json(pv[0]));
            }
        }
    }
    proof {
        assert(pv.take(pv.len() as int) =~= pv);
    }
    s
}

/// The message that asks a model to consolidate; none where there is
/// nothing to consolidate.
pub fn consolidation_request(
    sources: &Vec<(String, String)>,
    existing: &Vec<(String, String)>,
    mission: &Option<String>,
) -> (r: Option<String>)
    ensures
        sources@.len() == 0 ==> r is None,
        sources@.len() > 0 ==> (r matches Some(s) && s@ == consolidation_json(
            opt_view(*mission),
            pair_views(sources@),
            pair_views(existing@),
        )),
{
    if sources.len() == 0 {
        None
    } else {
        let mut s: String = owned("{\"existing_observations\":[");
        s.append(memories_text(existing).as_str());
        s.append("],\"mission\":");
        match mission {
            Some(m) => {
                s.append(quote(m.as_str()).as_str());
            },
            None => {
                s.append("null");
            },
        }
        s.append(",\"sources\":[");
        s.append(memories_text(sources).as_str());
        s.append("]}");
        Some(s)
    }
}

/// Whether a text is worth asking a model for facts: it holds more than
/// white space.
pub fn worth_extracting(text: &str) -> (r: bool)
    ensures
        r == (trimmed(text@).len() > 0),
{
    trim(text).as_str().unicode_len() > 0
}

proof fn lemma_scan_after(a: Seq<char>, c: char, b: Seq<char>)
    requires
        sentence_end(c),
    ensures
        sentence_scan(a.push(c) + b).0 == sentence_scan(a).0.push(sentence_scan(a).1)
            + sentence_scan(b).0,
        sentence_scan(a.push(c) + b).1 == sentence_scan(b).1,
    decreases b.len(),
{
    if b.len() == 0 {
        assert(a.push(c) + b =~= a.push(c));
        assert(a.push(c).drop_last() =~= a);
        assert(sentence_scan(a).0.push(sentence_scan(a).1) + sentence_scan(b).0 =~= sentence_scan(
            a,
        ).0.push(sentence_scan(a).1));
    } else {
        lemma_scan_after(a, c, b.drop_last());
        assert((a.push(c) + b).drop_last() =~= a.push(c) + b.drop_last());
        let x = sentence_scan(a).0.push(sentence_scan(a).1);
        let y = sentence_scan(b.drop_last());
        assert((x + y.0).push(y.1) =~= x + y.0.push(y.1));
    }
}

proof fn lemma_facts_of_both(a: Seq<Seq<char>>, b: Seq<Seq<char>>)
    ensures
        sentence_facts(a + b) == sentence_facts(a) + sentence_facts(b),
    decreases b.len(),
{
    if b.len() == 0 {
        assert(a + b =~= a);
        assert(sentence_facts(a) + sentence_facts(b) =~= sentence_facts(a));
    } else {
        lemma_facts_of_both(a, b.drop_last());
        assert((a + b).drop_last() =~= a + b.drop_last());
        let t = trimmed(b.last());
        let x = sentence_facts(a);
        let y = sentence_facts(b.drop_last());
        assert((x + y).push(world_fact(t)) =~= x + y.push(world_fact(t)));
    }
}

/// A text is read sentence by sentence: what stands before and after a full
/// stop, a mark of exclamation or question, or the end of a line is read on
/// its own, in order.
pub proof fn law_sentences_are_read_apart(a: Seq<char>, c: char, b: Seq<char>)
    requires
        c == '.' || c == '!' || c == '?' || c == '\n',
    ensures
        plain_facts(a.push(c) + b) == plain_facts(a) + plain_facts(b),
{
    lemma_scan_after(a, c, b);
    let (x, p) = sentence_scan(a);
    let (y, q) = sentence_scan(b);
    assert((x.push(p) + y).push(q) =~= x.push(p) + y.push(q));
    lemma_facts_of_both(x.push(p), y.push(q));
}

proof fn lemma_one_sentence(s: Seq<char>)
    requires
        forall|i: int| 0 <= i < s.len() ==> !sentence_end(#[trigger] s[i]),
    ensures
        sentence_scan(s).0.len() == 0,
        sentence_scan(s).1 == s,
    decreases s.len(),
{
    if s.len() > 0 {
        let d = s.drop_last();
        assert forall|i: int| 0 <= i < d.len() implies !sentence_end(#[trigger] d[i]) by {
            assert(d[i] == s[i]);
        }
        lemma_one_sentence(d);
        assert(!sentence_end(s[s.len() - 1]));
        assert(d.push(s.last()) =~= s);
    }
}

/// One sentence is one fact about the world, with its text, if that has four
/// bytes without the white space around it; a shorter one is none.
pub proof fn law_sentence_is_a_fact(s: Seq<char>)
    requires
        forall|i: int|
            0 <= i < s.len() ==> #[trigger] s[i] != '.' && s[i] != '!' && s[i] != '?' && s[i] != '\n',
    ensures
        encode_utf8(trimmed(s)).len() >= 4 ==> plain_facts(s).len() == 1 && plain_facts(s)[0].text
            == trimmed(s) && plain_facts(s)[0].fact_type == "world"@ && plain_facts(
            s,
        )[0].entities.len() == 0,
        encode_utf8(trimmed(s)).len() < 4 ==> plain_facts(s).len() == 0,
{
    lemma_one_sentence(s);
    let p = sentence_scan(s).0.push(sentence_scan(s).1);
    assert(p =~= seq![s]);
    assert(p.drop_last() =~= Seq::<Seq<char>>::empty());
    assert(sentence_facts(p.drop_last()) =~= Seq::<Fact>::empty());
}

/// What a code fence holds comes out without the fence, and a text without
/// one as it is, without the white space around it.
pub proof fn law_code_fence_is_removed(x: Seq<char>)
    requires
        !ends_in_fence(x),
    ensures
        ({
            let f = "```json"@ + x + "```"@;
            trimmed(f) == f ==> unfenced(f) == trimmed(x)
        }),
        ({
            let f = "```"@ + x + "```"@;
            trimmed(f) == f && !begins(x, "json"@) ==> unfenced(f) == trimmed(x)
        }),
        !begins(trimmed(x), "```"@) ==> unfenced(x) == trimmed(x),
{
    reveal_strlit("```json");
    reveal_strlit("```");
    reveal_strlit("json");
    let f = "```json"@ + x + "```"@;
    assert(f.take(7) =~= "```json"@);
    let y = x + "```"@;
    assert(f.skip(7) =~= y);
    assert(y.take(y.len() - 3) =~= x);
    assert(without_end_fences(y) == without_end_fences(x));
    assert(without_end_fences(x) == x);
    let g = "```"@ + x + "```"@;
    assert(g.take(3) =~= "```"@);
    assert(g.skip(3) =~= y);
    if begins(g, "```json"@) && !begins(x, "json"@) {
        assert(g.take(7) == "```json"@);
        assert forall|i: int| 3 <= i < 7 implies #[trigger] g[i] == "```json"@[i] by {
            assert(g.take(7)[i] == g[i]);
        }
        assert(g[3] == 'j' && g[4] == 's' && g[5] == 'o' && g[6] == 'n');
        if x.len() >= 4 {
            assert(x[0] == g[3] && x[1] == g[4] && x[2] == g[5] && x[3] == g[6]);
            assert(x.take(4) =~= "json"@);
        } else {
            assert(g[(3 + x.len()) as int] == '`');
        }
        assert(false);
    }
    let t = trimmed(x);
    if begins(t, "```json"@) && !begins(t, "```"@) {
        assert(t.take(7).take(3) =~= t.take(3));
        assert(t.take(3) =~= "```"@);
    }
}

/// Whether a text ends in a code fence.
pub open spec fn ends_in_fence(s: Seq<char>) -> bool {
    s.len() >= 3 && s[s.len() - 1] == '`' && s[s.len() - 2] == '`' && s[s.len() - 3] == '`'
}

/// A request to consolidate lists one memory after another: the existing
/// ones first, the sources last.
pub proof fn law_request_lists_memories(
    mission: Option<Seq<char>>,
    sources: Seq<(Seq<char>, Seq<char>)>,
    existing: Seq<(Seq<char>, Seq<char>)>,
    m: (Seq<char>, Seq<char>),
)
    ensures
        memories_json(seq![m]) == "{\"id\":"@ + json_string(m.0) + ",\"text\":"@ + json_string(m.1)
            + "}"@,
        sources.len() > 0 ==> memories_json(sources.push(m)) == memories_json(sources) + ","@
            + memory_json(m),
        begins(
            consolidation_json(mission, sources, existing),
            "{\"existing_observations\":["@ + memories_json(existing) + "],\"mission\":"@,
        ),
        ends(
            consolidation_json(mission, sources, existing),
            ",\"sources\":["@ + memories_json(sources) + "]}"@,
        ),
        mission matches Some(t) ==> consolidation_json(mission, sources, existing).len()
            == consolidation_json(None, sources, existing).len() - 4 + json_string(t).len(),
{
    reveal_strlit("null");
    assert(sources.push(m).drop_last() =~= sources);
    let a = "{\"existing_observations\":["@ + memories_json(existing) + "],\"mission\":"@;
    let b = ",\"sources\":["@ + memories_json(sources) + "]}"@;
    let c = consolidation_json(mission, sources, existing);
    assert(c.take(a.len() as int) =~= a);
    assert(c.skip(c.len() - b.len()) =~= b);
}

} // verus!
