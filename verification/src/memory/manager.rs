//! The rules of the memory facade: what is stored for an entry, which
//! entries a question selects, and what a bank's status is.
use crate::ambient::Timestamp;
use crate::config::MemorySettings;
use crate::memory::embed::DEFAULT_DIM;
use crate::memory::model::{
    entry_of_unit, law_unit_keeps_the_tags, stored_as, stored_importance, type_mark, unit_of_entry,
    unit_time, unit_views, units_wf, Budget, Entry, FactType, MemoryEntry, MemoryStatus, MemoryType,
    MemoryUnit, TagMatch, Unit,
};
use crate::memory::recall::RecallRequest;
use crate::memory::retain::{Item, RetainItem};
use crate::text::{
    chars_of, ends, ends_with, has_string, join_path, owned, path_below, same, string_of, views,
};
use vstd::prelude::*;

verus! {

/// The bank of a single agent.
pub const DEFAULT_BANK_ID: &'static str = "agentrust";

/// The bank that a setting names; the default one where it names none.
pub fn bank_or_default(bank_id: &str) -> (r: String)
    ensures
        r@ == if bank_id@.len() == 0 {
            "agentrust"@
        } else {
            bank_id@
        },
{
    if bank_id.unicode_len() == 0 {
        owned(DEFAULT_BANK_ID)
    } else {
        owned(bank_id)
    }
}

/// Whether a path names a file with the extension `json`.
pub open spec fn names_json(p: Seq<char>) -> bool {
    ends(p, ".json"@) && p.len() > 5 && p[p.len() - 6] != '/'
}

/// A path without the slashes and dots at its end that name nothing.
pub open spec fn bare_path(p: Seq<char>) -> Seq<char>
    decreases p.len(),
{
    if p.len() > 0 && p.last() == '/' {
        bare_path(p.drop_last())
    } else if p.len() > 1 && p.last() == '.' && p[p.len() - 2] == '/' {
        bare_path(p.take(p.len() - 2))
    } else {
        p
    }
}

/// Where the database of a configured path lies: beside a `json` file, else
/// at the path itself.
pub open spec fn database_of(path: Seq<char>) -> Seq<char> {
    let p = bare_path(path);
    if names_json(p) {
        p.take(p.len() - 4) + "db"@
    } else {
        path
    }
}

fn bare(path: &str) -> (r: String)
    ensures
        r@ == bare_path(path@),
{
    let v: Vec<char> = chars_of(path);
    let mut n: usize = v.len();
    proof {
        assert(v@.take(n as int) =~= v@);
    }
    while n > 0 && (v[n - 1] == '/' || (n > 1 && v[n - 1] == '.' && v[n - 2] == '/'))
        invariant
            n <= v@.len(),
            bare_path(path@) == bare_path(v@.take(n as int)),
        decreases n,
    {
        let ghost t = v@.take(n as int);
        if v[n - 1] == '/' {
            proof {
                assert(t.drop_last() =~= v@.take(n - 1));
            }
            n = n - 1;
        } else {
            proof {
                assert(t.take(t.len() - 2) =~= v@.take(n - 2));
            }
            n = n - 2;
        }
    }
    proof {
        assert(v@.subrange(0, n as int) =~= v@.take(n as int));
    }
    string_of(&v, 0, n)
}

/// Finds the database of a configured path, so that a `json` file that lies
/// there is not overwritten.
pub fn database_path(path: &str) -> (r: String)
    ensures
        r@ == database_of(path@),
{
    let p: String = bare(path);
    let v: Vec<char> = chars_of(p.as_str());
    let n: usize = v.len();
    if ends_with(p.as_str(), ".json") && n > 5 && v[n - 6] != '/' {
        let mut out: String = string_of(&v, 0, n - 4);
        proof {
            assert(v@.subrange(0, n - 4) =~= v@.take(n - 4));
        }
        out.append("db");
        out
    } else {
        owned(path)
    }
}

/// How the memory of an agent is set up.
#[derive(Debug, Clone)]
pub struct MemoryConfig {
    pub bank_id: String,
    pub db_path: String,
    pub embedding_dim: usize,
}

impl MemoryConfig {
    /// The default setup below a home directory.
    pub fn defaults(home: &str) -> (r: MemoryConfig)
        ensures
            r.bank_id@ == "agentrust"@,
            r.db_path@ == path_below(home@, ".agentrust/memory.db"@),
            r.embedding_dim == DEFAULT_DIM,
    {
        MemoryConfig {
            bank_id: owned(DEFAULT_BANK_ID),
            db_path: join_path(home, ".agentrust/memory.db"),
            embedding_dim: DEFAULT_DIM,
        }
    }

    /// The setup that settings ask for.
    pub fn from_settings(settings: &MemorySettings) -> (r: MemoryConfig)
        ensures
            r.bank_id@ == if settings.bank_id@.len() == 0 {
                "agentrust"@
            } else {
                settings.bank_id@
            },
            r.db_path@ == database_of(settings.path@),
            r.embedding_dim == DEFAULT_DIM,
    {
        MemoryConfig {
            bank_id: bank_or_default(settings.bank_id.as_str()),
            db_path: database_path(settings.path.as_str()),
            embedding_dim: DEFAULT_DIM,
        }
    }
}

/// The item that stores an entry.
pub open spec fn entry_item(e: Entry, bank_id: Seq<char>) -> Item {
    let u = unit_of_entry(e, bank_id);
    Item {
        content: u.text,
        timestamp: Some(unit_time(u)),
        context: u.context,
        document_id: u.document_id,
        tags: u.tags,
        metadata: u.metadata,
        raw_fact_type: Some(u.fact_type),
    }
}

/// The item that stores an entry.
pub fn item_of_entry(entry: MemoryEntry, bank_id: &str) -> (r: RetainItem)
    requires
        entry.wf(),
    ensures
        r.wf(),
        r@ == entry_item(entry@, bank_id@),
{
    let u: MemoryUnit = entry.into_unit(bank_id);
    let t: Timestamp = u.time();
    RetainItem {
        content: u.text,
        timestamp: Some(t),
        context: u.context,
        document_id: u.document_id,
        tags: u.tags,
        metadata: u.metadata,
        raw_fact_type: Some(u.fact_type),
    }
}

/// The views of a sequence of entries.
pub open spec fn entry_views(s: Seq<MemoryEntry>) -> Seq<Entry> {
    s.map_values(|e: MemoryEntry| e@)
}

/// Some units in their flat form.
pub open spec fn entries_of(us: Seq<Unit>) -> Seq<Entry> {
    us.map_values(|u: Unit| entry_of_unit(u))
}

/// Shows some units in their flat form.
pub fn show_units(units: &Vec<MemoryUnit>) -> (r: Vec<MemoryEntry>)
    requires
        units_wf(units@),
    ensures
        entry_views(r@) == entries_of(unit_views(units@)),
{
    let mut out: Vec<MemoryEntry> = Vec::new();
    let ghost goal = entries_of(unit_views(units@));
    for i in 0..units.len()
        invariant
            units_wf(units@),
            goal == entries_of(unit_views(units@)),
            entry_views(out@) == goal.take(i as int),
    {
        proof {
            assert(units@[i as int].wf());
        }
        let e: MemoryEntry = MemoryEntry::from_unit(&units[i]);
        let ghost before = out@;
        out.push(e);
        proof {
            assert(entry_views(out@) =~= entry_views(before).push(e@));
            assert(goal.take(i + 1) =~= goal.take(i as int).push(e@));
        }
    }
    proof {
        assert(goal.take(goal.len() as int) =~= goal);
    }
    out
}

/// Whether a unit is of a memory type: it is tagged as such, or is a fact of
/// the same kind.
pub open spec fn is_of_type(u: Unit, t: MemoryType) -> bool {
    u.tags.contains(type_mark(t)) || u.fact_type == stored_as(t)
}

/// The units of a memory type, in their flat form.
pub open spec fn entries_of_type(us: Seq<Unit>, t: MemoryType) -> Seq<Entry> {
    entries_of(us.filter(|u: Unit| is_of_type(u, t)))
}

/// The units of at least some importance, in their flat form.
pub open spec fn important_entries(us: Seq<Unit>, threshold: u64) -> Seq<Entry> {
    entries_of(us.filter(|u: Unit| stored_importance(u.metadata) >= threshold))
}

/// Selects the units of a memory type and shows them in their flat form.
pub fn memories_of_type(units: &Vec<MemoryUnit>, t: MemoryType) -> (r: Vec<MemoryEntry>)
    requires
        units_wf(units@),
    ensures
        entry_views(r@) == entries_of_type(unit_views(units@), t),
{
    let mut mark: String = owned("type:");
    mark.append(t.as_tag());
    let ft: FactType = t.fact_type();
    let mut out: Vec<MemoryEntry> = Vec::new();
    let ghost uv = unit_views(units@);
    let ghost keep = |u: Unit| is_of_type(u, t);
    proof {
        reveal(Seq::filter);
        assert(entry_views(out@) =~= entries_of(uv.take(0).filter(keep)));
    }
    for i in 0..units.len()
        invariant
            units_wf(units@),
            uv == unit_views(units@),
            keep == (|u: Unit| is_of_type(u, t)),
            mark@ == type_mark(t),
            ft == stored_as(t),
            entry_views(out@) == entries_of(uv.take(i as int).filter(keep)),
    {
        proof {
            reveal(Seq::filter);
            assert(units@[i as int].wf());
            assert(uv.take(i + 1).drop_last() =~= uv.take(i as int));
            assert(uv.take(i + 1).last() == units@[i as int]@);
        }
        if has_string(&units[i].tags, mark.as_str()) || units[i].fact_type == ft {
            let e: MemoryEntry = MemoryEntry::from_unit(&units[i]);
            let ghost before = out@;
            out.push(e);
            proof {
                let f = uv.take(i as int).filter(keep);
                assert(entry_views(out@) =~= entry_views(before).push(e@));
                assert(entries_of(f.push(uv[i as int])) =~= entries_of(f).push(
                    entry_of_unit(uv[i as int]),
                ));
            }
        }
    }
    proof {
        assert(uv.take(uv.len() as int) =~= uv);
    }
    out
}

/// Selects the units of at least some importance, in billionths, and shows
/// them in their flat form.
pub fn important_memories(units: &Vec<MemoryUnit>, threshold: u64) -> (r: Vec<MemoryEntry>)
    requires
        units_wf(units@),
    ensures
        entry_views(r@) == important_entries(unit_views(units@), threshold),
{
    let mut out: Vec<MemoryEntry> = Vec::new();
    let ghost uv = unit_views(units@);
    let ghost keep = |u: Unit| stored_importance(u.metadata) >= threshold;
    proof {
        reveal(Seq::filter);
        assert(entry_views(out@) =~= entries_of(uv.take(0).filter(keep)));
    }
    for i in 0..units.len()
        invariant
            units_wf(units@),
            uv == unit_views(units@),
            keep == (|u: Unit| stored_importance(u.metadata) >= threshold),
            entry_views(out@) == entries_of(uv.take(i as int).filter(keep)),
    {
        proof {
            reveal(Seq::filter);
            assert(units@[i as int].wf());
            assert(uv.take(i + 1).drop_last() =~= uv.take(i as int));
            assert(uv.take(i + 1).last() == units@[i as int]@);
        }
        let e: MemoryEntry = MemoryEntry::from_unit(&units[i]);
        if e.importance >= threshold {
            let ghost before = out@;
            out.push(e);
            proof {
                let f = uv.take(i as int).filter(keep);
                assert(entry_views(out@) =~= entry_views(before).push(e@));
                assert(entries_of(f.push(uv[i as int])) =~= entries_of(f).push(
                    entry_of_unit(uv[i as int]),
                ));
            }
        }
    }
    proof {
        assert(uv.take(uv.len() as int) =~= uv);
    }
    out
}

/// The request that searches memories.
pub fn search_request(query: &str) -> (r: RecallRequest)
    ensures
        r.query@ == query@,
        r.fact_types@.len() == 0,
        r.tags@.len() == 0,
        r.tag_match == TagMatch::Any,
        r.budget == Budget::Mid,
        r.max_tokens == Some(8192usize),
{
    RecallRequest {
        query: owned(query),
        fact_types: Vec::new(),
        tags: Vec::new(),
        tag_match: TagMatch::Any,
        budget: Budget::Mid,
        max_tokens: Some(8192),
    }
}

/// How often a tag occurs among the first `n`.
pub open spec fn tag_count(tags: Seq<Seq<char>>, tag: Seq<char>, n: nat) -> nat
    decreases n,
{
    if n == 0 {
        0
    } else {
        tag_count(tags, tag, (n - 1) as nat) + (if tags[n - 1] == tag {
            1nat
        } else {
            0nat
        })
    }
}

/// How often a tag occurs on the first `n` units.
pub open spec fn tagged_count(us: Seq<Unit>, tag: Seq<char>, n: nat) -> nat
    decreases n,
{
    if n == 0 {
        0
    } else {
        tagged_count(us, tag, (n - 1) as nat) + tag_count(us[n - 1].tags, tag, us[n - 1].tags.len())
    }
}

/// How many of the first `n` units are facts about the world that are not
/// tagged as knowledge.
pub open spec fn untagged_world(us: Seq<Unit>, n: nat) -> nat
    decreases n,
{
    if n == 0 {
        0
    } else {
        untagged_world(us, (n - 1) as nat) + (if us[n - 1].fact_type == FactType::World
            && !us[n - 1].tags.contains("type:knowledge"@) {
            1nat
        } else {
            0nat
        })
    }
}

/// A count held within its type.
pub open spec fn held(n: nat) -> usize {
    if n > usize::MAX {
        usize::MAX
    } else {
        n as usize
    }
}

fn count_tag(tags: &Vec<String>, tag: &str) -> (r: usize)
    ensures
        r == tag_count(views(tags@), tag@, tags@.len()),
{
    let mut n: usize = 0;
    let ghost tv = views(tags@);
    for i in 0..tags.len()
        invariant
            tv == views(tags@),
            n <= i,
            n == tag_count(tv, tag@, i as nat),
    {
        proof {
            assert(tv[i as int] == tags@[i as int]@);
        }
        if same(tags[i].as_str(), tag) {
            n = n + 1;
        }
    }
    n
}

fn hold_sum(a: usize, b: usize) -> (r: usize)
    ensures
        r == held((a + b) as nat),
{
    if a > usize::MAX - b {
        usize::MAX
    } else {
        a + b
    }
}

/// Summarises a bank from its units.
pub fn status_of(
    units: &Vec<MemoryUnit>,
    total: usize,
    last_consolidation: Option<Timestamp>,
    storage_size_bytes: u64,
) -> (r: MemoryStatus)
    ensures
        ({
            let us = unit_views(units@);
            &&& r.total_memories == total
            &&& r.session_count == held(tagged_count(us, "type:session"@, us.len()))
            &&& r.conversation_count == held(tagged_count(us, "type:conversation"@, us.len()))
            &&& r.knowledge_count == held(
                tagged_count(us, "type:knowledge"@, us.len()) + untagged_world(us, us.len()),
            )
            &&& r.last_consolidation == last_consolidation
            &&& r.storage_size_bytes == storage_size_bytes
        }),
{
    let ghost us = unit_views(units@);
    let mut sessions: usize = 0;
    let mut conversations: usize = 0;
    let mut knowledge: usize = 0;
    for i in 0..units.len()
        invariant
            us == unit_views(units@),
            sessions == held(tagged_count(us, "type:session"@, i as nat)),
            conversations == held(tagged_count(us, "type:conversation"@, i as nat)),
            knowledge == held(
                tagged_count(us, "type:knowledge"@, i as nat) + untagged_world(us, i as nat),
            ),
    {
        let u: &MemoryUnit = &units[i];
        proof {
            assert(us[i as int] == u@);
        }
        sessions = hold_sum(sessions, count_tag(&u.tags, "type:session"));
        conversations = hold_sum(conversations, count_tag(&u.tags, "type:conversation"));
        knowledge = hold_sum(knowledge, count_tag(&u.tags, "type:knowledge"));
        if u.fact_type == FactType::World && !has_string(&u.tags, "type:knowledge") {
            knowledge = hold_sum(knowledge, 1);
        }
    }
    MemoryStatus {
        total_memories: total,
        session_count: sessions,
        conversation_count: conversations,
        knowledge_count: knowledge,
        last_consolidation,
        storage_size_bytes,
    }
}

proof fn lemma_shown(us: Seq<Unit>, good: spec_fn(Unit) -> bool, u: Unit)
    ensures
        us.contains(u) && good(u) ==> entries_of(us.filter(good)).contains(entry_of_unit(u)),
        forall|i: int|
            0 <= i < entries_of(us.filter(good)).len() ==> exists|k: int|
                0 <= k < us.len() && good(#[trigger] us[k]) && #[trigger] entries_of(
                    us.filter(good),
                )[i] == entry_of_unit(us[k]),
        entries_of(us.filter(good)).len() <= us.len(),
{
    let f = us.filter(good);
    let r = entries_of(f);
    us.lemma_filter_len(good);
    if us.contains(u) && good(u) {
        let i = choose|i: int| 0 <= i < us.len() && us[i] == u;
        us.lemma_filter_contains(good, i);
        let z = choose|z: int| 0 <= z < f.len() && f[z] == u;
        assert(r[z] == entry_of_unit(u));
    }
    assert forall|i: int| 0 <= i < r.len() implies exists|k: int|
        0 <= k < us.len() && good(#[trigger] us[k]) && #[trigger] r[i] == entry_of_unit(us[k]) by {
        us.lemma_filter_pred(good, i);
        us.lemma_filter_contains_rev(good, f[i]);
        let k = choose|k: int| 0 <= k < us.len() && us[k] == f[i];
        assert(good(us[k]) && r[i] == entry_of_unit(us[k]));
    }
}

/// The memories of a type are those marked with it and those stored as the
/// same kind of fact; an entry that was stored is among those of its type.
pub proof fn law_memories_of_a_type(us: Seq<Unit>, t: MemoryType, u: Unit, e: Entry, bank: Seq<char>)
    ensures
        us.contains(u) && (u.tags.contains(type_mark(t)) || u.fact_type == stored_as(t))
            ==> entries_of_type(us, t).contains(entry_of_unit(u)),
        forall|i: int|
            0 <= i < entries_of_type(us, t).len() ==> exists|k: int|
                0 <= k < us.len() && ((#[trigger] us[k]).tags.contains(type_mark(t))
                    || us[k].fact_type == stored_as(t)) && #[trigger] entries_of_type(us, t)[i]
                    == entry_of_unit(us[k]),
        us.contains(unit_of_entry(e, bank)) ==> entries_of_type(us, e.memory_type).contains(
            entry_of_unit(unit_of_entry(e, bank)),
        ),
{
    let good = |u: Unit| is_of_type(u, t);
    lemma_shown(us, good, u);
    let own = |u: Unit| is_of_type(u, e.memory_type);
    lemma_shown(us, own, unit_of_entry(e, bank));
    let r = entries_of_type(us, t);
    assert forall|i: int| 0 <= i < r.len() implies exists|k: int|
        0 <= k < us.len() && ((#[trigger] us[k]).tags.contains(type_mark(t)) || us[k].fact_type
            == stored_as(t)) && #[trigger] r[i] == entry_of_unit(us[k]) by {
        let k = choose|k: int|
            0 <= k < us.len() && good(#[trigger] us[k]) && entries_of(us.filter(good))[i]
                == entry_of_unit(us[k]);
        assert(is_of_type(us[k], t) && r[i] == entry_of_unit(us[k]));
    }
}

/// The important memories are just those at or above the threshold: each of
/// them is shown, and each that is shown has that importance.
pub proof fn law_important_memories(us: Seq<Unit>, threshold: u64, u: Unit)
    ensures
        us.contains(u) && entry_of_unit(u).importance >= threshold ==> important_entries(
            us,
            threshold,
        ).contains(entry_of_unit(u)),
        forall|i: int|
            0 <= i < important_entries(us, threshold).len() ==> (#[trigger] important_entries(
                us,
                threshold,
            )[i]).importance >= threshold,
        important_entries(us, 0).len() == us.len(),
{
    let good = |u: Unit| stored_importance(u.metadata) >= threshold;
    lemma_shown(us, good, u);
    let r = important_entries(us, threshold);
    assert forall|i: int| 0 <= i < r.len() implies (#[trigger] r[i]).importance >= threshold by {
        let k = choose|k: int|
            0 <= k < us.len() && good(#[trigger] us[k]) && entries_of(us.filter(good))[i]
                == entry_of_unit(us[k]);
        assert(r[i] == entry_of_unit(us[k]));
    }
    lemma_all_kept(us, |u: Unit| stored_importance(u.metadata) >= 0);
}

proof fn lemma_all_kept(us: Seq<Unit>, good: spec_fn(Unit) -> bool)
    requires
        forall|u: Unit| #[trigger] good(u),
    ensures
        us.filter(good).len() == us.len(),
    decreases us.len(),
{
    reveal(Seq::filter);
    if us.len() > 0 {
        lemma_all_kept(us.drop_last(), good);
        assert(good(us.last()));
    }
}

/// A path that names a file of another kind is the database itself; the
/// database of a `json` file lies beside it under the same name, so that the
/// file is never overwritten.
pub proof fn law_database_beside_the_file(dir: Seq<char>, p: Seq<char>)
    requires
        dir.len() > 0,
        dir.last() != '/',
    ensures
        database_of(dir + ".json"@) == dir + ".db"@,
        !names_json(p) && bare_path(p) == p ==> database_of(p) == p,
        bare_path(p) == p ==> !names_json(database_of(p)),
{
    reveal_strlit(".json");
    reveal_strlit(".db");
    reveal_strlit("db");
    let f = dir + ".json"@;
    assert(f.last() == 'n');
    assert(bare_path(f) == f);
    assert(f.skip(f.len() - 5) =~= ".json"@);
    assert(f[f.len() - 6] == dir.last());
    assert(f.take(f.len() - 4) + "db"@ =~= dir + ".db"@);
    let d = database_of(p);
    if bare_path(p) == p && names_json(p) && names_json(d) {
        assert(d.last() == 'b');
        assert(d.skip(d.len() - 5)[4] == d.last());
        assert(false);
    }
}

/// A unit more raises the count of a tag by how often it carries the tag,
/// and the count of untagged facts by one just where it is a fact about the
/// world that is not tagged as knowledge.
pub proof fn law_status_counts(us: Seq<Unit>, u: Unit, tag: Seq<char>)
    requires
        u.tags.no_duplicates(),
    ensures
        tagged_count(us.push(u), tag, us.len() + 1) == tagged_count(us, tag, us.len()) + (
        if u.tags.contains(tag) {
            1nat
        } else {
            0nat
        }),
        untagged_world(us.push(u), us.len() + 1) == untagged_world(us, us.len()) + (
        if u.fact_type == FactType::World && !u.tags.contains("type:knowledge"@) {
            1nat
        } else {
            0nat
        }),
        untagged_world(us, us.len()) <= us.len(),
{
    lemma_counts_of_prefix(us, u, tag, us.len());
    lemma_tag_counted_once(u.tags, tag, u.tags.len());
    if u.tags.contains(tag) {
        let k = choose|k: int| 0 <= k < u.tags.len() && u.tags[k] == tag;
    }
}

proof fn lemma_counts_of_prefix(us: Seq<Unit>, u: Unit, tag: Seq<char>, n: nat)
    requires
        n <= us.len(),
    ensures
        tagged_count(us.push(u), tag, n) == tagged_count(us, tag, n),
        untagged_world(us.push(u), n) == untagged_world(us, n),
        untagged_world(us, n) <= n,
    decreases n,
{
    if n > 0 {
        lemma_counts_of_prefix(us, u, tag, (n - 1) as nat);
    }
}

proof fn lemma_tag_counted_once(tags: Seq<Seq<char>>, tag: Seq<char>, n: nat)
    requires
        tags.no_duplicates(),
        n <= tags.len(),
    ensures
        tag_count(tags, tag, n) == (if exists|k: int| 0 <= k < n && #[trigger] tags[k] == tag {
            1nat
        } else {
            0nat
        }),
    decreases n,
{
    if n > 0 {
        lemma_tag_counted_once(tags, tag, (n - 1) as nat);
        if tags[n - 1] == tag {
            assert forall|k: int| 0 <= k < n - 1 implies #[trigger] tags[k] != tag by {}
        }
    }
}

/// What is stored for an entry is the entry: its text, its time, its kind
/// and its tags.
pub proof fn law_entry_is_stored_whole(e: Entry, bank_id: Seq<char>)
    ensures
        ({
            let i = entry_item(e, bank_id);
            &&& i.content == e.content
            &&& i.timestamp == Some(e.timestamp)
            &&& i.raw_fact_type == Some(stored_as(e.memory_type))
            &&& i.tags.contains(type_mark(e.memory_type))
            &&& forall|t: Seq<char>| e.tags.contains(t) ==> #[trigger] i.tags.contains(t)
        }),
{
    assert forall|t: Seq<char>| e.tags.contains(t) implies #[trigger] entry_item(
        e,
        bank_id,
    ).tags.contains(t) by {
        law_unit_keeps_the_tags(e, bank_id, t);
    }
    law_unit_keeps_the_tags(e, bank_id, Seq::empty());
}

} // verus!
