//! The history of commands and queries, kept as memory units of experience.
//!
//! A history entry's unit is tagged `type:history` and
//! `history_type:<command|query|...>`.
use crate::ambient::{earlier, fresh_id, now, Timestamp};
use crate::json::{canonical, json_canonical};
use crate::memory::model::{
    unit_time, unit_views, units_wf, Budget, FactType, MemoryUnit, TagMatch, Unit,
};
use crate::memory::recall::RecallRequest;
use crate::memory::retain::{with_optional, Item, RetainItem};
use crate::order::{descending, descending_order, indices, ints};
use crate::strmap::StrMap;
use crate::text::{
    begins, bool_of, copy_opt, dec, fmt_u64, has_string, lemma_views_push, opt_view, owned,
    parse_bool_or, parse_nat, parsed_nat, same, strip_prefix, views,
};
use crate::window::{law_best_marked_are_picked, pick, picked};
use vstd::prelude::*;

verus! {

#[derive(Debug, Clone, Copy, PartialEq, Eq, Structural)]
pub enum HistoryType {
    Command,
    Query,
    ToolCall,
    FileOperation,
    Search,
    Agent,
}

/// The tag of a history type.
pub open spec fn history_tag(t: HistoryType) -> Seq<char> {
    match t {
        HistoryType::Command => "command"@,
        HistoryType::Query => "query"@,
        HistoryType::ToolCall => "tool_call"@,
        HistoryType::FileOperation => "file_op"@,
        HistoryType::Search => "search"@,
        HistoryType::Agent => "agent"@,
    }
}

/// The history type of a tag.
pub open spec fn history_of(s: Seq<char>) -> Option<HistoryType> {
    if s == "command"@ {
        Some(HistoryType::Command)
    } else if s == "query"@ {
        Some(HistoryType::Query)
    } else if s == "tool_call"@ {
        Some(HistoryType::ToolCall)
    } else if s == "file_op"@ {
        Some(HistoryType::FileOperation)
    } else if s == "search"@ {
        Some(HistoryType::Search)
    } else if s == "agent"@ {
        Some(HistoryType::Agent)
    } else {
        None
    }
}

pub fn history_type_tag(t: &HistoryType) -> (r: &'static str)
    ensures
        r@ == history_tag(*t),
{
    match t {
        HistoryType::Command => "command",
        HistoryType::Query => "query",
        HistoryType::ToolCall => "tool_call",
        HistoryType::FileOperation => "file_op",
        HistoryType::Search => "search",
        HistoryType::Agent => "agent",
    }
}

pub fn history_type_from_tag(s: &str) -> (r: Option<HistoryType>)
    ensures
        r == history_of(s@),
{
    if same(s, "command") {
        Some(HistoryType::Command)
    } else if same(s, "query") {
        Some(HistoryType::Query)
    } else if same(s, "tool_call") {
        Some(HistoryType::ToolCall)
    } else if same(s, "file_op") {
        Some(HistoryType::FileOperation)
    } else if same(s, "search") {
        Some(HistoryType::Search)
    } else if same(s, "agent") {
        Some(HistoryType::Agent)
    } else {
        None
    }
}

/// Reading the tag of a history type gives it back.
pub proof fn law_history_tags(t: HistoryType)
    ensures
        history_of(history_tag(t)) == Some(t),
{
    reveal_strlit("command");
    reveal_strlit("query");
    reveal_strlit("tool_call");
    reveal_strlit("file_op");
    reveal_strlit("search");
    reveal_strlit("agent");
    assert("command"@.len() == 7);
    assert("query"@.len() == 5);
    assert("tool_call"@.len() == 9);
    assert("file_op"@.len() == 7);
    assert("search"@.len() == 6);
    assert("agent"@.len() == 5);
    assert("command"@[0] != "file_op"@[0]);
    assert("query"@[0] != "agent"@[0]);
}

#[derive(Debug)]
pub struct HistoryEntry {
    pub id: String,
    pub entry_type: HistoryType,
    pub content: String,
    pub timestamp: Timestamp,
    pub session_id: Option<String>,
    pub success: bool,
    pub duration_ms: Option<u64>,
    /// A JSON value, as its compact text.
    pub metadata: String,
}

/// A history entry as a mathematical value.
pub struct Record {
    pub id: Seq<char>,
    pub entry_type: HistoryType,
    pub content: Seq<char>,
    pub timestamp: Timestamp,
    pub session_id: Option<Seq<char>>,
    pub success: bool,
    pub duration_ms: Option<u64>,
    pub metadata: Seq<char>,
}

impl View for HistoryEntry {
    type V = Record;

    open spec fn view(&self) -> Record {
        Record {
            id: self.id@,
            entry_type: self.entry_type,
            content: self.content@,
            timestamp: self.timestamp,
            session_id: opt_view(self.session_id),
            success: self.success,
            duration_ms: self.duration_ms,
            metadata: self.metadata@,
        }
    }
}

/// The views of a sequence of history entries.
pub open spec fn record_views(s: Seq<HistoryEntry>) -> Seq<Record> {
    s.map_values(|e: HistoryEntry| e@)
}

impl Clone for HistoryEntry {
    fn clone(&self) -> (r: HistoryEntry)
        ensures
            r@ == self@,
    {
        HistoryEntry {
            id: self.id.clone(),
            entry_type: self.entry_type,
            content: self.content.clone(),
            timestamp: self.timestamp,
            session_id: copy_opt(&self.session_id),
            success: self.success,
            duration_ms: self.duration_ms,
            metadata: self.metadata.clone(),
        }
    }
}

impl HistoryEntry {
    /// A successful entry as of now.
    pub fn new(entry_type: HistoryType, content: &str) -> (r: HistoryEntry)
        ensures
            r@ == (Record {
                id: r@.id,
                entry_type,
                content: content@,
                timestamp: r@.timestamp,
                session_id: None,
                success: true,
                duration_ms: None,
                metadata: "null"@,
            }),
            r@.id.len() == 36,
    {
        HistoryEntry {
            id: fresh_id(),
            entry_type,
            content: owned(content),
            timestamp: now(),
            session_id: None,
            success: true,
            duration_ms: None,
            metadata: owned("null"),
        }
    }

    pub fn with_session(self, session_id: &str) -> (r: HistoryEntry)
        ensures
            r@ == (Record { session_id: Some(session_id@), ..self@ }),
    {
        let mut e: HistoryEntry = self;
        e.session_id = Some(owned(session_id));
        e
    }

    pub fn with_duration(self, duration_ms: u64) -> (r: HistoryEntry)
        ensures
            r@ == (Record { duration_ms: Some(duration_ms), ..self@ }),
    {
        let mut e: HistoryEntry = self;
        e.duration_ms = Some(duration_ms);
        e
    }

    pub fn with_success(self, success: bool) -> (r: HistoryEntry)
        ensures
            r@ == (Record { success, ..self@ }),
    {
        let mut e: HistoryEntry = self;
        e.success = success;
        e
    }
}

/// Which history entries are wanted.
#[derive(Debug, Clone)]
pub struct HistoryFilter {
    pub entry_type: Option<HistoryType>,
    pub session_id: Option<String>,
    pub success_only: bool,
    pub from_time: Option<Timestamp>,
    pub to_time: Option<Timestamp>,
    pub limit: usize,
}

impl Default for HistoryFilter {
    fn default() -> (r: HistoryFilter)
        ensures
            r.entry_type is None,
            r.session_id is None,
            !r.success_only,
            r.from_time is None,
            r.to_time is None,
            r.limit == 100,
    {
        HistoryFilter {
            entry_type: None,
            session_id: None,
            success_only: false,
            from_time: None,
            to_time: None,
            limit: 100,
        }
    }
}

#[derive(Debug, Clone, Copy, PartialEq, Eq, Structural)]
pub struct HistoryStats {
    pub total_entries: usize,
    pub commands: usize,
    pub queries: usize,
    pub tool_calls: usize,
    pub successful: usize,
    pub failed: usize,
}

/// The text of a truth value.
pub open spec fn bool_text(b: bool) -> Seq<char> {
    if b {
        "true"@
    } else {
        "false"@
    }
}

/// The metadata that a history entry is stored with.
pub open spec fn record_metadata(e: Record) -> Map<Seq<char>, Seq<char>> {
    let m = Map::<Seq<char>, Seq<char>>::empty().insert("agentrust_id"@, e.id).insert(
        "entry_type"@,
        history_tag(e.entry_type),
    ).insert("success"@, bool_text(e.success));
    let d = with_optional(
        m,
        "duration_ms"@,
        match e.duration_ms {
            Some(n) => Some(dec(n as nat)),
            None => None,
        },
    );
    let s = with_optional(d, "session_id"@, e.session_id);
    with_optional(
        s,
        "payload"@,
        if e.metadata != "null"@ {
            Some(e.metadata)
        } else {
            None
        },
    )
}

/// A sequence with an optional element appended.
pub open spec fn push_some(s: Seq<Seq<char>>, x: Option<Seq<char>>) -> Seq<Seq<char>> {
    match x {
        Some(v) => s.push(v),
        None => s,
    }
}

/// The tag of a session.
pub open spec fn session_tag(session: Option<Seq<char>>) -> Option<Seq<char>> {
    match session {
        Some(s) => Some("session:"@ + s),
        None => None,
    }
}

/// The tags that a history entry is stored with.
pub open spec fn record_tags(e: Record) -> Seq<Seq<char>> {
    let t = push_some(
        seq!["type:history"@, "history_type:"@ + history_tag(e.entry_type)],
        session_tag(e.session_id),
    );
    if e.success {
        t
    } else {
        t.push("failed"@)
    }
}

/// The item that stores a history entry.
pub open spec fn record_item(e: Record) -> Item {
    Item {
        content: e.content,
        timestamp: Some(e.timestamp),
        context: e.session_id,
        document_id: e.session_id,
        tags: record_tags(e),
        metadata: record_metadata(e),
        raw_fact_type: Some(FactType::Experience),
    }
}

/// The history type that the first of the tags to name one names.
pub open spec fn first_history_type(tags: Seq<Seq<char>>) -> Option<HistoryType>
    decreases tags.len(),
{
    if tags.len() == 0 {
        None
    } else {
        match first_history_type(tags.drop_last()) {
            Some(t) => Some(t),
            None => if begins(tags.last(), "history_type:"@) {
                history_of(tags.last().skip(13))
            } else {
                None
            },
        }
    }
}

/// The value of a key, if there is one.
pub open spec fn value_of(m: Map<Seq<char>, Seq<char>>, key: Seq<char>) -> Option<Seq<char>> {
    if m.dom().contains(key) {
        Some(m[key])
    } else {
        None
    }
}

/// The history type of a unit: that of its metadata, else that of its tags,
/// else a command.
pub open spec fn unit_history_type(u: Unit) -> HistoryType {
    let named = match value_of(u.metadata, "entry_type"@) {
        Some(s) => history_of(s),
        None => None,
    };
    match named {
        Some(t) => t,
        None => match first_history_type(u.tags) {
            Some(t) => t,
            None => HistoryType::Command,
        },
    }
}

/// A unit as a history entry.
pub open spec fn record_of_unit(u: Unit) -> Record {
    Record {
        id: match value_of(u.metadata, "agentrust_id"@) {
            Some(s) => s,
            None => u.id,
        },
        entry_type: unit_history_type(u),
        content: u.text,
        timestamp: unit_time(u),
        session_id: match value_of(u.metadata, "session_id"@) {
            Some(s) => Some(s),
            None => u.document_id,
        },
        success: match value_of(u.metadata, "success"@) {
            Some(s) => match bool_of(s) {
                Some(b) => b,
                None => true,
            },
            None => true,
        },
        duration_ms: match value_of(u.metadata, "duration_ms"@) {
            Some(s) => match parsed_nat(s) {
                Some(n) => if n <= u64::MAX {
                    Some(n as u64)
                } else {
                    None
                },
                None => None,
            },
            None => None,
        },
        metadata: match value_of(u.metadata, "payload"@) {
            Some(s) => match json_canonical(s) {
                Some(t) => t,
                None => "null"@,
            },
            None => "null"@,
        },
    }
}

proof fn lemma_keys()
    ensures
        "agentrust_id"@ != "entry_type"@,
        "agentrust_id"@ != "success"@,
        "agentrust_id"@ != "duration_ms"@,
        "agentrust_id"@ != "session_id"@,
        "agentrust_id"@ != "payload"@,
        "entry_type"@ != "success"@,
        "entry_type"@ != "duration_ms"@,
        "entry_type"@ != "session_id"@,
        "entry_type"@ != "payload"@,
        "success"@ != "duration_ms"@,
        "success"@ != "session_id"@,
        "success"@ != "payload"@,
        "duration_ms"@ != "session_id"@,
        "duration_ms"@ != "payload"@,
        "session_id"@ != "payload"@,
        "true"@ != "false"@,
{
    reveal_strlit("agentrust_id");
    reveal_strlit("entry_type");
    reveal_strlit("success");
    reveal_strlit("duration_ms");
    reveal_strlit("session_id");
    reveal_strlit("payload");
    reveal_strlit("true");
    reveal_strlit("false");
    assert("agentrust_id"@.len() == 12);
    assert("entry_type"@.len() == 10);
    assert("success"@.len() == 7);
    assert("duration_ms"@.len() == 11);
    assert("session_id"@.len() == 10);
    assert("payload"@.len() == 7);
    assert("true"@.len() == 4);
    assert("false"@.len() == 5);
    assert("entry_type"@[0] != "session_id"@[0]);
    assert("success"@[0] != "payload"@[0]);
}

/// Reading back the unit that stores a history entry gives the entry, with
/// its payload as the JSON reader writes it. Any unit that keeps the item's
/// content, time, document, tags and metadata will do.
pub proof fn law_history_round_trip(e: Record, u: Unit)
    requires
        u.text == e.content,
        u.event_date == Some(e.timestamp),
        u.document_id == e.session_id,
        u.tags == record_tags(e),
        u.metadata == record_metadata(e),
    ensures
        ({
            let b = record_of_unit(u);
            &&& b.id == e.id
            &&& b.entry_type == e.entry_type
            &&& b.content == e.content
            &&& b.timestamp == e.timestamp
            &&& b.session_id == e.session_id
            &&& b.success == e.success
            &&& b.duration_ms == e.duration_ms
            &&& e.metadata == "null"@ ==> b.metadata == "null"@
            &&& json_canonical(e.metadata) == Some(e.metadata) ==> b.metadata == e.metadata
        }),
{
    lemma_keys();
    law_history_tags(e.entry_type);
    match e.duration_ms {
        Some(n) => {
            crate::text::lemma_dec(n as nat);
            let d = dec(n as nat);
            assert('0' <= d[0] <= '9');
        },
        None => {},
    }
}

fn bool_str(b: bool) -> (r: &'static str)
    ensures
        r@ == bool_text(b),
{
    if b {
        "true"
    } else {
        "false"
    }
}

/// The item that stores a history entry.
pub fn history_item(entry: &HistoryEntry) -> (r: RetainItem)
    ensures
        r.wf(),
        r@ == record_item(entry@),
{
    let mut metadata: StrMap = StrMap::new();
    metadata.insert("agentrust_id", entry.id.clone());
    metadata.insert("entry_type", owned(history_type_tag(&entry.entry_type)));
    metadata.insert("success", owned(bool_str(entry.success)));
    match entry.duration_ms {
        Some(d) => {
            metadata.insert("duration_ms", fmt_u64(d));
        },
        None => {},
    }
    let mut tags: Vec<String> = Vec::new();
    tags.push(owned("type:history"));
    let mut kind: String = owned("history_type:");
    kind.append(history_type_tag(&entry.entry_type));
    tags.push(kind);
    proof {
        assert(views(tags@) =~= seq![
            "type:history"@,
            "history_type:"@ + history_tag(entry.entry_type),
        ]);
    }
    match &entry.session_id {
        Some(s) => {
            metadata.insert("session_id", s.clone());
            let mut t: String = owned("session:");
            t.append(s.as_str());
            proof {
                lemma_views_push(tags@, t);
            }
            tags.push(t);
        },
        None => {},
    }
    if !same(entry.metadata.as_str(), "null") {
        metadata.insert("payload", entry.metadata.clone());
    }
    if !entry.success {
        let t: String = owned("failed");
        proof {
            lemma_views_push(tags@, t);
        }
        tags.push(t);
    }
    RetainItem {
        content: entry.content.clone(),
        timestamp: Some(entry.timestamp),
        context: copy_opt(&entry.session_id),
        document_id: copy_opt(&entry.session_id),
        tags,
        metadata,
        raw_fact_type: Some(FactType::Experience),
    }
}

fn tagged_type(tags: &Vec<String>) -> (r: Option<HistoryType>)
    ensures
        r == first_history_type(views(tags@)),
{
    let ghost tv = views(tags@);
    let mut found: Option<HistoryType> = None;
    for i in 0..tags.len()
        invariant
            tv == views(tags@),
            found == first_history_type(tv.take(i as int)),
    {
        proof {
            reveal_strlit("history_type:");
            assert("history_type:"@.len() == 13);
            assert(tv.take(i + 1).drop_last() =~= tv.take(i as int));
            assert(tv.take(i + 1).last() == tags@[i as int]@);
        }
        if found.is_none() {
            match strip_prefix(tags[i].as_str(), "history_type:") {
                Some(rest) => {
                    found = history_type_from_tag(rest.as_str());
                },
                None => {},
            }
        }
    }
    proof {
        assert(tv.take(tv.len() as int) =~= tv);
    }
    found
}

/// Shows a unit as a history entry.
pub fn unit_to_history_entry(unit: &MemoryUnit) -> (r: HistoryEntry)
    requires
        unit.wf(),
    ensures
        r@ == record_of_unit(unit@),
{
    let id: String = match unit.metadata.get("agentrust_id") {
        Some(s) => s.clone(),
        None => unit.id.clone(),
    };
    let named: Option<HistoryType> = match unit.metadata.get("entry_type") {
        Some(s) => history_type_from_tag(s.as_str()),
        None => None,
    };
    let entry_type: HistoryType = match named {
        Some(t) => t,
        None => match tagged_type(&unit.tags) {
            Some(t) => t,
            None => HistoryType::Command,
        },
    };
    let success: bool = match unit.metadata.get("success") {
        Some(s) => parse_bool_or(s.as_str(), true),
        None => true,
    };
    let duration_ms: Option<u64> = match unit.metadata.get("duration_ms") {
        Some(s) => parse_nat(s.as_str(), u64::MAX),
        None => None,
    };
    let session_id: Option<String> = match unit.metadata.get("session_id") {
        Some(s) => Some(s.clone()),
        None => copy_opt(&unit.document_id),
    };
    let metadata: String = match unit.metadata.get("payload") {
        Some(s) => match canonical(s.as_str()) {
            Some(t) => t,
            None => owned("null"),
        },
        None => owned("null"),
    };
    HistoryEntry {
        id,
        entry_type,
        content: unit.text.clone(),
        timestamp: unit.time(),
        session_id,
        success,
        duration_ms,
        metadata,
    }
}

/// The tags that select the units of a filter.
pub open spec fn filter_tags(f: HistoryFilter) -> Seq<Seq<char>> {
    push_some(
        push_some(
            seq!["type:history"@],
            match f.entry_type {
                Some(t) => Some("history_type:"@ + history_tag(t)),
                None => None,
            },
        ),
        session_tag(opt_view(f.session_id)),
    )
}

/// Whether an entry passes a filter by outcome and time.
pub open spec fn passes_filter(f: HistoryFilter, e: Record) -> bool {
    &&& f.success_only ==> e.success
    &&& f.from_time matches Some(t) ==> !earlier(e.timestamp, t)
    &&& f.to_time matches Some(t) ==> !earlier(t, e.timestamp)
}

/// A point in time as a sort key.
pub open spec fn time_key(t: Timestamp) -> int {
    t.secs * 0x1_0000_0000 + t.nanos
}

/// The entries of some units that pass a filter, latest first, at most as
/// many as the filter allows.
pub open spec fn listed(f: HistoryFilter, es: Seq<Record>) -> Seq<Record> {
    let keys = es.map_values(|e: Record| time_key(e.timestamp));
    let marks = es.map_values(|e: Record| passes_filter(f, e));
    picked(descending(keys, keys.len()), marks, f.limit as nat).map_values(|i: int| es[i])
}

/// The entries of some units.
pub open spec fn records_of(us: Seq<Unit>) -> Seq<Record> {
    us.map_values(|u: Unit| record_of_unit(u))
}

/// The entries that some units stand for.
pub fn entries_of(units: &Vec<MemoryUnit>) -> (r: Vec<HistoryEntry>)
    requires
        units_wf(units@),
    ensures
        record_views(r@) == records_of(unit_views(units@)),
{
    let mut out: Vec<HistoryEntry> = Vec::new();
    let ghost goal = records_of(unit_views(units@));
    for i in 0..units.len()
        invariant
            units_wf(units@),
            goal == records_of(unit_views(units@)),
            record_views(out@) == goal.take(i as int),
    {
        proof {
            assert(units@[i as int].wf());
        }
        let e: HistoryEntry = unit_to_history_entry(&units[i]);
        let ghost before = out@;
        out.push(e);
        proof {
            assert(record_views(out@) =~= record_views(before).push(e@));
            assert(goal.take(i + 1) =~= goal.take(i as int).push(e@));
        }
    }
    proof {
        assert(goal.take(goal.len() as int) =~= goal);
    }
    out
}

fn passes(f: &HistoryFilter, e: &HistoryEntry) -> (r: bool)
    ensures
        r == passes_filter(*f, e@),
{
    if f.success_only && !e.success {
        return false;
    }
    match f.from_time {
        Some(t) => {
            if e.timestamp.before(&t) {
                return false;
            }
        },
        None => {},
    }
    match f.to_time {
        Some(t) => {
            if t.before(&e.timestamp) {
                return false;
            }
        },
        None => {},
    }
    true
}

/// How many of some entries are of a type.
pub open spec fn count_type(es: Seq<Record>, t: HistoryType) -> nat
    decreases es.len(),
{
    if es.len() == 0 {
        0
    } else {
        count_type(es.drop_last(), t) + (if es.last().entry_type == t {
            1nat
        } else {
            0nat
        })
    }
}

/// How many of some entries had the given outcome.
pub open spec fn count_outcome(es: Seq<Record>, success: bool) -> nat
    decreases es.len(),
{
    if es.len() == 0 {
        0
    } else {
        count_outcome(es.drop_last(), success) + (if es.last().success == success {
            1nat
        } else {
            0nat
        })
    }
}

/// Every entry either succeeded or failed.
pub proof fn law_outcomes_add_up(es: Seq<Record>)
    ensures
        count_outcome(es, true) + count_outcome(es, false) == es.len(),
    decreases es.len(),
{
    if es.len() > 0 {
        law_outcomes_add_up(es.drop_last());
    }
}

/// The history, as far as it needs no store.
#[derive(Debug, Clone, Copy)]
pub struct HistoryManager {}

impl HistoryManager {
    /// The request that finds the units of a filter.
    pub fn list_request(&self, filter: &HistoryFilter) -> (r: RecallRequest)
        ensures
            r.query@ == Seq::<char>::empty(),
            r.fact_types@ == seq![FactType::Experience],
            views(r.tags@) == filter_tags(*filter),
            r.tag_match == TagMatch::AllStrict,
            r.budget == Budget::High,
            r.max_tokens is None,
    {
        let mut tags: Vec<String> = Vec::new();
        tags.push(owned("type:history"));
        proof {
            assert(views(tags@) =~= seq!["type:history"@]);
        }
        match &filter.entry_type {
            Some(t) => {
                let mut s: String = owned("history_type:");
                s.append(history_type_tag(t));
                proof {
                    lemma_views_push(tags@, s);
                }
                tags.push(s);
            },
            None => {},
        }
        match &filter.session_id {
            Some(id) => {
                let mut s: String = owned("session:");
                s.append(id.as_str());
                proof {
                    lemma_views_push(tags@, s);
                }
                tags.push(s);
            },
            None => {},
        }
        let mut types: Vec<FactType> = Vec::new();
        types.push(FactType::Experience);
        proof {
            assert(types@ =~= seq![FactType::Experience]);
        }
        RecallRequest {
            query: String::new(),
            fact_types: types,
            tags,
            tag_match: TagMatch::AllStrict,
            budget: Budget::High,
            max_tokens: None,
        }
    }

    /// The request that searches the history.
    pub fn search_request(&self, query: &str) -> (r: RecallRequest)
        ensures
            r.query@ == query@,
            r.fact_types@ == seq![FactType::Experience],
            views(r.tags@) == seq!["type:history"@],
            r.tag_match == TagMatch::AllStrict,
            r.budget == Budget::Mid,
            r.max_tokens == Some(8192usize),
    {
        let mut tags: Vec<String> = Vec::new();
        tags.push(owned("type:history"));
        let mut types: Vec<FactType> = Vec::new();
        types.push(FactType::Experience);
        proof {
            assert(views(tags@) =~= seq!["type:history"@]);
            assert(types@ =~= seq![FactType::Experience]);
        }
        RecallRequest {
            query: owned(query),
            fact_types: types,
            tags,
            tag_match: TagMatch::AllStrict,
            budget: Budget::Mid,
            max_tokens: Some(8192),
        }
    }

    /// The entries of the units found that pass the filter, latest first.
    pub fn list(&self, filter: &HistoryFilter, found: &Vec<MemoryUnit>) -> (r: Vec<HistoryEntry>)
        requires
            units_wf(found@),
        ensures
            record_views(r@) == listed(*filter, records_of(unit_views(found@))),
            r@.len() <= filter.limit,
    {
        let es: Vec<HistoryEntry> = entries_of(found);
        let ghost ev = record_views(es@);
        let ghost ks = ev.map_values(|e: Record| time_key(e.timestamp));
        let ghost ms = ev.map_values(|e: Record| passes_filter(*filter, e));
        let mut keys: Vec<i128> = Vec::new();
        let mut marks: Vec<bool> = Vec::new();
        for i in 0..es.len()
            invariant
                ev == record_views(es@),
                ks == ev.map_values(|e: Record| time_key(e.timestamp)),
                ms == ev.map_values(|e: Record| passes_filter(*filter, e)),
                keys@.len() == i,
                marks@.len() == i,
                forall|j: int| 0 <= j < i ==> #[trigger] keys@[j] as int == ks[j],
                forall|j: int| 0 <= j < i ==> #[trigger] marks@[j] == ms[j],
        {
            let t: Timestamp = es[i].timestamp;
            keys.push((t.secs as i128) * 0x1_0000_0000 + t.nanos as i128);
            marks.push(passes(filter, &es[i]));
        }
        proof {
            assert(ints(keys@) =~= ks);
            assert(marks@ =~= ms);
        }
        let order: Vec<usize> = descending_order(&keys);
        let chosen: Vec<usize> = pick(&order, &marks, filter.limit);
        let ghost ci = indices(chosen@);
        let mut out: Vec<HistoryEntry> = Vec::new();
        proof {
            assert(record_views(out@) =~= ci.take(0).map_values(|i: int| ev[i]));
        }
        for i in 0..chosen.len()
            invariant
                ev == record_views(es@),
                ci == indices(chosen@),
                marks@.len() == es@.len(),
                forall|j: int| 0 <= j < chosen@.len() ==> #[trigger] chosen@[j] < marks@.len(),
                record_views(out@) == ci.take(i as int).map_values(|i: int| ev[i]),
                out@.len() == i,
        {
            let x: usize = chosen[i];
            let e: HistoryEntry = es[x].clone();
            let ghost before = out@;
            out.push(e);
            proof {
                assert(record_views(out@) =~= record_views(before).push(e@));
                assert(ci.take(i + 1) =~= ci.take(i as int).push(x as int));
                assert(ci.take(i + 1).map_values(|i: int| ev[i]) =~= ci.take(i as int).map_values(
                    |i: int| ev[i],
                ).push(ev[x as int]));
            }
        }
        proof {
            assert(ci.take(ci.len() as int) =~= ci);
        }
        out
    }

    /// The position of the unit that stores the entry with an identifier.
    pub fn find(&self, units: &Vec<MemoryUnit>, id: &str) -> (r: Option<usize>)
        requires
            units_wf(units@),
        ensures
            match r {
                Some(i) => i < units@.len() && value_of(
                    units@[i as int]@.metadata,
                    "agentrust_id"@,
                ) == Some(id@) && forall|j: int|
                    0 <= j < i ==> value_of((#[trigger] units@[j])@.metadata, "agentrust_id"@) != Some(
                        id@,
                    ),
                None => forall|j: int|
                    0 <= j < units@.len() ==> value_of(
                        (#[trigger] units@[j])@.metadata,
                        "agentrust_id"@,
                    ) != Some(id@),
            },
    {
        for i in 0..units.len()
            invariant
                units_wf(units@),
                forall|j: int|
                    0 <= j < i ==> value_of((#[trigger] units@[j])@.metadata, "agentrust_id"@) != Some(
                        id@,
                    ),
        {
            proof {
                assert(units@[i as int].wf());
            }
            match units[i].metadata.get("agentrust_id") {
                Some(s) => {
                    if same(s.as_str(), id) {
                        return Some(i);
                    }
                },
                None => {},
            }
        }
        None
    }

    /// Whether a unit belongs to the history, and goes when it is cleared.
    pub fn is_history(&self, unit: &MemoryUnit) -> (r: bool)
        ensures
            r == unit@.tags.contains("type:history"@),
    {
        has_string(&unit.tags, "type:history")
    }

    /// Counts entries by type and outcome.
    pub fn stats(&self, all: &Vec<HistoryEntry>) -> (r: HistoryStats)
        ensures
            ({
                let es = record_views(all@);
                &&& r.total_entries == es.len()
                &&& r.commands == count_type(es, HistoryType::Command)
                &&& r.queries == count_type(es, HistoryType::Query)
                &&& r.tool_calls == count_type(es, HistoryType::ToolCall)
                &&& r.successful == count_outcome(es, true)
                &&& r.failed == count_outcome(es, false)
            }),
    {
        let ghost es = record_views(all@);
        let mut s = HistoryStats {
            total_entries: all.len(),
            commands: 0,
            queries: 0,
            tool_calls: 0,
            successful: 0,
            failed: 0,
        };
        for i in 0..all.len()
            invariant
                es == record_views(all@),
                s.total_entries == all@.len(),
                s.commands <= i,
                s.queries <= i,
                s.tool_calls <= i,
                s.successful <= i,
                s.failed <= i,
                s.commands == count_type(es.take(i as int), HistoryType::Command),
                s.queries == count_type(es.take(i as int), HistoryType::Query),
                s.tool_calls == count_type(es.take(i as int), HistoryType::ToolCall),
                s.successful == count_outcome(es.take(i as int), true),
                s.failed == count_outcome(es.take(i as int), false),
        {
            proof {
                assert(es.take(i + 1).drop_last() =~= es.take(i as int));
                assert(es.take(i + 1).last() == all@[i as int]@);
            }
            match all[i].entry_type {
                HistoryType::Command => {
                    s.commands = s.commands + 1;
                },
                HistoryType::Query => {
                    s.queries = s.queries + 1;
                },
                HistoryType::ToolCall => {
                    s.tool_calls = s.tool_calls + 1;
                },
                _ => {},
            }
            if all[i].success {
                s.successful = s.successful + 1;
            } else {
                s.failed = s.failed + 1;
            }
        }
        proof {
            assert(es.take(es.len() as int) =~= es);
        }
        s
    }
}

/// An entry is listed only within the times asked for, both ends counted,
/// and, where only successes are wanted, only if it succeeded; without any
/// of these every entry is.
pub proof fn law_filter_bounds(f: HistoryFilter, e: Record)
    ensures
        f.success_only && !e.success ==> !passes_filter(f, e),
        f.from_time matches Some(t) ==> (e.timestamp.secs < t.secs ==> !passes_filter(f, e)),
        f.to_time matches Some(t) ==> (e.timestamp.secs > t.secs ==> !passes_filter(f, e)),
        !f.success_only && f.from_time is None && f.to_time is None ==> passes_filter(f, e),
        e.success && f.from_time == Some(e.timestamp) && f.to_time == Some(e.timestamp)
            ==> passes_filter(f, e),
        e.success && f.from_time is None && f.to_time is Some && e.timestamp.secs
            < f.to_time->0.secs ==> passes_filter(f, e),
        e.success && f.to_time is None && f.from_time is Some && e.timestamp.secs
            > f.from_time->0.secs ==> passes_filter(f, e),
{
}

/// A listing shows what passes the filter and nothing else, latest first, at
/// most as much as the filter allows; nothing later is left out for something
/// earlier, and nothing at all while there is room.
pub proof fn law_latest_are_listed_first(f: HistoryFilter, es: Seq<Record>)
    requires
        forall|i: int| 0 <= i < es.len() ==> (#[trigger] es[i]).timestamp.wf(),
    ensures
        ({
            let r = listed(f, es);
            &&& r.len() <= f.limit
            &&& forall|i: int|
                0 <= i < r.len() ==> es.contains(#[trigger] r[i]) && passes_filter(f, r[i])
            &&& forall|i: int, j: int|
                0 <= i < j < r.len() ==> !earlier(
                    (#[trigger] r[i]).timestamp,
                    (#[trigger] r[j]).timestamp,
                )
            &&& forall|m: int, i: int|
                0 <= m < es.len() && passes_filter(f, #[trigger] es[m]) && !r.contains(es[m])
                    && 0 <= i < r.len() ==> !earlier((#[trigger] r[i]).timestamp, es[m].timestamp)
            &&& r.len() < f.limit ==> forall|m: int|
                0 <= m < es.len() && passes_filter(f, #[trigger] es[m]) ==> r.contains(es[m])
        }),
{
    let keys = es.map_values(|e: Record| time_key(e.timestamp));
    let marks = es.map_values(|e: Record| passes_filter(f, e));
    let p = picked(descending(keys, keys.len()), marks, f.limit as nat);
    let r = listed(f, es);
    law_best_marked_are_picked(keys, marks, f.limit as nat);
    assert forall|i: int| 0 <= i < r.len() implies es.contains(#[trigger] r[i]) && passes_filter(
        f,
        r[i],
    ) by {
        assert(r[i] == es[p[i]]);
        assert(marks[p[i]]);
    }
    assert forall|i: int, j: int| 0 <= i < j < r.len() implies !earlier(
        (#[trigger] r[i]).timestamp,
        (#[trigger] r[j]).timestamp,
    ) by {
        assert(r[i] == es[p[i]] && r[j] == es[p[j]]);
        assert(keys[p[i]] >= keys[p[j]]);
    }
    assert forall|m: int|
        0 <= m < es.len() && passes_filter(f, #[trigger] es[m]) && !r.contains(
            es[m],
        ) implies marks[m] && !p.contains(m) by {
        if p.contains(m) {
            let z = choose|z: int| 0 <= z < p.len() && p[z] == m;
            assert(r[z] == es[m]);
        }
    }
    assert forall|m: int, i: int|
        0 <= m < es.len() && passes_filter(f, #[trigger] es[m]) && !r.contains(es[m]) && 0 <= i
            < r.len() implies !earlier((#[trigger] r[i]).timestamp, es[m].timestamp) by {
        assert(marks[m] && !p.contains(m));
        assert(r[i] == es[p[i]]);
        assert(keys[m] <= keys[p[i]]);
    }
    if r.len() < f.limit {
        assert forall|m: int|
            0 <= m < es.len() && passes_filter(f, #[trigger] es[m]) implies r.contains(es[m]) by {
            assert(marks[m]);
            assert(p.contains(m));
            let z = choose|z: int| 0 <= z < p.len() && p[z] == m;
            assert(r[z] == es[m]);
        }
    }
}

/// The counts of the six types add up to the number of entries, and an entry
/// more is counted under its own type and outcome only.
pub proof fn law_types_add_up(es: Seq<Record>, e: Record, t: HistoryType, b: bool)
    ensures
        count_type(es, HistoryType::Command) + count_type(es, HistoryType::Query) + count_type(
            es,
            HistoryType::ToolCall,
        ) + count_type(es, HistoryType::FileOperation) + count_type(es, HistoryType::Search)
            + count_type(es, HistoryType::Agent) == es.len(),
        count_type(es.push(e), e.entry_type) == count_type(es, e.entry_type) + 1,
        t != e.entry_type ==> count_type(es.push(e), t) == count_type(es, t),
        count_outcome(es.push(e), e.success) == count_outcome(es, e.success) + 1,
        b != e.success ==> count_outcome(es.push(e), b) == count_outcome(es, b),
    decreases es.len(),
{
    assert(es.push(e).drop_last() =~= es);
    if es.len() > 0 {
        law_types_add_up(es.drop_last(), es.last(), t, b);
    }
}

proof fn lemma_history_marks(t: HistoryType, u: HistoryType, s: Seq<char>)
    ensures
        t != u ==> "history_type:"@ + history_tag(t) != "history_type:"@ + history_tag(u),
        "history_type:"@ + history_tag(t) != "type:history"@,
        "history_type:"@ + history_tag(t) != "session:"@ + s,
        "history_type:"@ + history_tag(t) != "failed"@,
        "session:"@ + s != "type:history"@,
        "session:"@ + s != "failed"@,
        "type:history"@ != "failed"@,
{
    reveal_strlit("history_type:");
    reveal_strlit("type:history");
    reveal_strlit("session:");
    reveal_strlit("failed");
    let a = "history_type:"@ + history_tag(t);
    let b = "history_type:"@ + history_tag(u);
    if t != u && a == b {
        law_history_tags(t);
        law_history_tags(u);
        assert(a.skip(13) =~= history_tag(t));
        assert(b.skip(13) =~= history_tag(u));
    }
    assert(a[0] == 'h');
    assert(("session:"@ + s)[0] == 's');
    assert("type:history"@[0] == 't');
    assert("failed"@[0] == 'f');
}

/// The tags of a filter are all on an entry just where the entry has the
/// type and the session that the filter asks for.
pub proof fn law_filter_selects_its_entries(f: HistoryFilter, e: Record)
    ensures
        (forall|t: Seq<char>| #[trigger]
            filter_tags(f).contains(t) ==> record_tags(e).contains(t)) <==> ((f.entry_type is None
            || f.entry_type == Some(e.entry_type)) && (f.session_id is None || opt_view(
            f.session_id,
        ) == e.session_id)),
{
    let ft = filter_tags(f);
    let rt = record_tags(e);
    let mark = "history_type:"@ + history_tag(e.entry_type);
    assert(rt[0] == "type:history"@ && rt[1] == mark);
    if e.session_id is Some {
        assert(rt[2] == "session:"@ + e.session_id->0);
        lemma_history_marks(e.entry_type, e.entry_type, e.session_id->0);
    }
    assert(ft[0] == "type:history"@);
    if f.entry_type is Some {
        let t = f.entry_type->0;
        let want = "history_type:"@ + history_tag(t);
        assert(ft[1] == want);
        assert(ft.contains(want));
        lemma_history_marks(t, e.entry_type, Seq::empty());
        if e.session_id is Some {
            lemma_history_marks(t, e.entry_type, e.session_id->0);
        }
        if rt.contains(want) {
            assert(t == e.entry_type);
        }
    }
    if f.session_id is Some {
        let s = opt_view(f.session_id)->0;
        let want = "session:"@ + s;
        assert(ft[ft.len() - 1] == want);
        assert(ft.contains(want));
        lemma_history_marks(e.entry_type, e.entry_type, s);
        if rt.contains(want) {
            assert(e.session_id is Some);
            let own = "session:"@ + e.session_id->0;
            assert(want == own);
            assert(want.skip("session:"@.len() as int) =~= s);
            assert(own.skip("session:"@.len() as int) =~= e.session_id->0);
        }
    }
    if (f.entry_type is None || f.entry_type == Some(e.entry_type)) && (f.session_id is None
        || opt_view(f.session_id) == e.session_id) {
        assert forall|t: Seq<char>| #[trigger] ft.contains(t) implies rt.contains(t) by {
            let i = choose|i: int| 0 <= i < ft.len() && ft[i] == t;
        }
    }
}

} // verus!
