//! The data model of the memory engine.
//!
//! A bank holds documents, a document groups memory units, and units are
//! connected by entities and links. A unit is a fact of one of three types;
//! an observation counts the memories that support it.
use crate::ambient::{fresh_id, now, Timestamp};
use crate::fixed::{
    decimal_text, fmt_decimal, held, law_decimal_round_trip, parse_decimal, parsed_decimal, HALF,
    ONE,
};
use crate::json::{json_canonical, json_value, read_value};
use crate::strmap::{map_of, StrMap};
use crate::text::{
    begins, copy_opt, copy_strings, has_string, lemma_views_push, opt_view, owned, same,
    strip_prefix, views,
};
use vstd::prelude::*;

verus! {

/// The three categories of memory.
#[derive(Debug, Clone, Copy, PartialEq, Eq, Structural)]
pub enum FactType {
    /// Durable facts about the external world, in the third person.
    World,
    /// Episodic events of the agent itself, in the first person.
    Experience,
    /// A synthesis over a set of source memories.
    Observation,
}

/// The stored name of a fact type.
pub open spec fn fact_name(x: FactType) -> Seq<char> {
    match x {
        FactType::World => "world"@,
        FactType::Experience => "experience"@,
        FactType::Observation => "observation"@,
    }
}

/// The fact type of a stored name.
pub open spec fn fact_of(s: Seq<char>) -> Option<FactType> {
    if s == "world"@ {
        Some(FactType::World)
    } else if s == "experience"@ {
        Some(FactType::Experience)
    } else if s == "observation"@ {
        Some(FactType::Observation)
    } else {
        None
    }
}

impl FactType {
    pub fn as_str(&self) -> (r: &'static str)
        ensures
            r@ == fact_name(*self),
    {
        match self {
            FactType::World => "world",
            FactType::Experience => "experience",
            FactType::Observation => "observation",
        }
    }

    pub fn from_str(s: &str) -> (r: Option<FactType>)
        ensures
            r == fact_of(s@),
    {
        if same(s, "world") {
            Some(FactType::World)
        } else if same(s, "experience") {
            Some(FactType::Experience)
        } else if same(s, "observation") {
            Some(FactType::Observation)
        } else {
            None
        }
    }
}

/// Reading the name of a fact type gives it back.
pub proof fn law_fact_names(x: FactType)
    ensures
        fact_of(fact_name(x)) == Some(x),
{
    reveal_strlit("world");
    reveal_strlit("experience");
    reveal_strlit("observation");
    assert("world"@.len() == 5);
    assert("experience"@.len() == 10);
    assert("observation"@.len() == 11);
}

/// The kind of an edge between memories.
#[derive(Debug, Clone, Copy, PartialEq, Eq, Structural)]
pub enum LinkType {
    Temporal,
    Semantic,
    Entity,
}

/// The stored name of a link type.
pub open spec fn link_name(x: LinkType) -> Seq<char> {
    match x {
        LinkType::Temporal => "temporal"@,
        LinkType::Semantic => "semantic"@,
        LinkType::Entity => "entity"@,
    }
}

/// The link type of a stored name.
pub open spec fn link_of(s: Seq<char>) -> Option<LinkType> {
    if s == "temporal"@ {
        Some(LinkType::Temporal)
    } else if s == "semantic"@ {
        Some(LinkType::Semantic)
    } else if s == "entity"@ {
        Some(LinkType::Entity)
    } else {
        None
    }
}

impl LinkType {
    pub fn as_str(&self) -> (r: &'static str)
        ensures
            r@ == link_name(*self),
    {
        match self {
            LinkType::Temporal => "temporal",
            LinkType::Semantic => "semantic",
            LinkType::Entity => "entity",
        }
    }

    pub fn from_str(s: &str) -> (r: Option<LinkType>)
        ensures
            r == link_of(s@),
    {
        if same(s, "temporal") {
            Some(LinkType::Temporal)
        } else if same(s, "semantic") {
            Some(LinkType::Semantic)
        } else if same(s, "entity") {
            Some(LinkType::Entity)
        } else {
            None
        }
    }
}

/// Reading the name of a link type gives it back.
pub proof fn law_link_names(x: LinkType)
    ensures
        link_of(link_name(x)) == Some(x),
{
    reveal_strlit("temporal");
    reveal_strlit("semantic");
    reveal_strlit("entity");
    assert("temporal"@.len() == 8);
    assert("semantic"@.len() == 8);
    assert("entity"@.len() == 6);
    assert("temporal"@[0] != "semantic"@[0]);
}

/// How requested tags select units at recall time.
#[derive(Debug, Clone, Copy, PartialEq, Eq, Structural)]
pub enum TagMatch {
    /// One of the requested tags, or no tag at all.
    Any,
    /// Every requested tag, or no tag at all.
    All,
    /// One of the requested tags.
    AnyStrict,
    /// Every requested tag.
    AllStrict,
}

impl Default for TagMatch {
    fn default() -> (r: TagMatch)
        ensures
            r == TagMatch::Any,
    {
        TagMatch::Any
    }
}

/// How much a recall may fetch.
#[derive(Debug, Clone, Copy, PartialEq, Eq, Structural)]
pub enum Budget {
    Low,
    Mid,
    High,
}

impl Default for Budget {
    fn default() -> (r: Budget)
        ensures
            r == Budget::Mid,
    {
        Budget::Mid
    }
}

/// How many candidates each retrieval arm fetches under a budget.
pub open spec fn arm_size(b: Budget) -> nat {
    match b {
        Budget::Low => 100,
        Budget::Mid => 300,
        Budget::High => 1000,
    }
}

impl Budget {
    /// How many candidates each retrieval arm fetches before fusion.
    pub fn per_arm(&self) -> (r: usize)
        ensures
            r == arm_size(*self),
    {
        match self {
            Budget::Low => 100,
            Budget::Mid => 300,
            Budget::High => 1000,
        }
    }
}

/// A bank isolates the memories of one agent.
#[derive(Debug, Clone)]
pub struct Bank {
    pub bank_id: String,
    pub background: Option<String>,
    pub created_at: Timestamp,
    pub updated_at: Timestamp,
}

impl Bank {
    pub fn new(bank_id: &str) -> (r: Bank)
        ensures
            r.bank_id@ == bank_id@,
            r.background is None,
            r.created_at == r.updated_at,
    {
        let t: Timestamp = now();
        Bank { bank_id: owned(bank_id), background: None, created_at: t, updated_at: t }
    }
}

/// A document groups memory units that came from the same source. It is
/// identified by its id and its bank.
#[derive(Debug, Clone)]
pub struct Document {
    pub id: String,
    pub bank_id: String,
    pub original_text: Option<String>,
    pub content_hash: Option<String>,
    pub metadata: StrMap,
    pub created_at: Timestamp,
    pub updated_at: Timestamp,
}

/// A document as a mathematical value.
pub struct DocumentView {
    pub id: Seq<char>,
    pub bank_id: Seq<char>,
    pub original_text: Option<Seq<char>>,
    pub content_hash: Option<Seq<char>>,
    pub metadata: Map<Seq<char>, Seq<char>>,
    pub created_at: Timestamp,
    pub updated_at: Timestamp,
}

impl View for Document {
    type V = DocumentView;

    open spec fn view(&self) -> DocumentView {
        DocumentView {
            id: self.id@,
            bank_id: self.bank_id@,
            original_text: opt_view(self.original_text),
            content_hash: opt_view(self.content_hash),
            metadata: self.metadata@,
            created_at: self.created_at,
            updated_at: self.updated_at,
        }
    }
}

/// An empty document made at the given time.
pub open spec fn fresh_document(id: Seq<char>, bank_id: Seq<char>, t: Timestamp) -> DocumentView {
    DocumentView {
        id,
        bank_id,
        original_text: None,
        content_hash: None,
        metadata: Map::empty(),
        created_at: t,
        updated_at: t,
    }
}

impl Document {
    /// The invariant: the metadata is a map.
    pub open spec fn wf(&self) -> bool {
        self.metadata.wf()
    }

    pub fn new(id: &str, bank_id: &str) -> (r: Document)
        ensures
            r.wf(),
            r@ == fresh_document(id@, bank_id@, r@.created_at),
    {
        let t: Timestamp = now();
        Document {
            id: owned(id),
            bank_id: owned(bank_id),
            original_text: None,
            content_hash: None,
            metadata: StrMap::new(),
            created_at: t,
            updated_at: t,
        }
    }
}

/// One revision kept in an observation's history.
#[derive(Debug, Clone)]
pub struct ObservationHistoryEntry {
    pub at: Timestamp,
    /// `create`, `update` or `merge`.
    pub action: String,
    pub note: Option<String>,
}

/// A revision as a mathematical value.
pub struct Revision {
    pub at: Timestamp,
    pub action: Seq<char>,
    pub note: Option<Seq<char>>,
}

impl View for ObservationHistoryEntry {
    type V = Revision;

    open spec fn view(&self) -> Revision {
        Revision { at: self.at, action: self.action@, note: opt_view(self.note) }
    }
}

/// The views of a sequence of revisions.
pub open spec fn revision_views(s: Seq<ObservationHistoryEntry>) -> Seq<Revision> {
    s.map_values(|e: ObservationHistoryEntry| e@)
}

/// The central record: one atomic fact.
#[derive(Debug)]
pub struct MemoryUnit {
    pub id: String,
    pub bank_id: String,
    pub document_id: Option<String>,
    pub text: String,
    pub fact_type: FactType,
    pub context: Option<String>,
    pub event_date: Option<Timestamp>,
    pub occurred_start: Option<Timestamp>,
    pub occurred_end: Option<Timestamp>,
    pub mentioned_at: Timestamp,
    /// Visibility tags.
    pub tags: Vec<String>,
    pub metadata: StrMap,
    /// Vector embedding of the text, each component as the bit pattern of a
    /// single-precision number.
    pub embedding: Vec<u32>,
    /// The memories that an observation rests on.
    pub source_memory_ids: Vec<String>,
    /// How many memories support an observation.
    pub proof_count: u32,
    /// Revisions of an observation, oldest first.
    pub history: Vec<ObservationHistoryEntry>,
    pub created_at: Timestamp,
}

/// A memory unit as a mathematical value.
pub struct Unit {
    pub id: Seq<char>,
    pub bank_id: Seq<char>,
    pub document_id: Option<Seq<char>>,
    pub text: Seq<char>,
    pub fact_type: FactType,
    pub context: Option<Seq<char>>,
    pub event_date: Option<Timestamp>,
    pub occurred_start: Option<Timestamp>,
    pub occurred_end: Option<Timestamp>,
    pub mentioned_at: Timestamp,
    pub tags: Seq<Seq<char>>,
    pub metadata: Map<Seq<char>, Seq<char>>,
    pub embedding: Seq<u32>,
    pub source_memory_ids: Seq<Seq<char>>,
    pub proof_count: u32,
    pub history: Seq<Revision>,
    pub created_at: Timestamp,
}

impl View for MemoryUnit {
    type V = Unit;

    open spec fn view(&self) -> Unit {
        Unit {
            id: self.id@,
            bank_id: self.bank_id@,
            document_id: opt_view(self.document_id),
            text: self.text@,
            fact_type: self.fact_type,
            context: opt_view(self.context),
            event_date: self.event_date,
            occurred_start: self.occurred_start,
            occurred_end: self.occurred_end,
            mentioned_at: self.mentioned_at,
            tags: views(self.tags@),
            metadata: self.metadata@,
            embedding: self.embedding@,
            source_memory_ids: views(self.source_memory_ids@),
            proof_count: self.proof_count,
            history: revision_views(self.history@),
            created_at: self.created_at,
        }
    }
}

/// The views of a sequence of units.
pub open spec fn unit_views(s: Seq<MemoryUnit>) -> Seq<Unit> {
    s.map_values(|u: MemoryUnit| u@)
}

/// Every unit of a list is well formed.
pub open spec fn units_wf(s: Seq<MemoryUnit>) -> bool {
    forall|i: int| 0 <= i < s.len() ==> (#[trigger] s[i]).wf()
}

/// A fresh unit with the given identifier, made at the given time.
pub open spec fn fresh_unit(
    bank_id: Seq<char>,
    text: Seq<char>,
    fact_type: FactType,
    id: Seq<char>,
    t: Timestamp,
) -> Unit {
    Unit {
        id,
        bank_id,
        document_id: None,
        text,
        fact_type,
        context: None,
        event_date: None,
        occurred_start: None,
        occurred_end: None,
        mentioned_at: t,
        tags: Seq::empty(),
        metadata: Map::empty(),
        embedding: Seq::empty(),
        source_memory_ids: Seq::empty(),
        proof_count: if fact_type == FactType::Observation {
            1
        } else {
            0
        },
        history: Seq::empty(),
        created_at: t,
    }
}

/// When a unit took place: its event date, else when it was mentioned.
pub open spec fn unit_time(u: Unit) -> Timestamp {
    match u.event_date {
        Some(t) => t,
        None => u.mentioned_at,
    }
}

impl MemoryUnit {
    /// The invariant: the metadata is a map.
    pub open spec fn wf(&self) -> bool {
        self.metadata.wf()
    }

    /// A fresh unit as of now, with a fresh identifier.
    pub fn new(bank_id: &str, text: &str, fact_type: FactType) -> (r: MemoryUnit)
        ensures
            r.wf(),
            r@ == fresh_unit(bank_id@, text@, fact_type, r@.id, r@.created_at),
            r@.id.len() == 36,
            r@.created_at.wf(),
    {
        let t: Timestamp = now();
        MemoryUnit::new_at(bank_id, text, fact_type, fresh_id(), t)
    }

    /// A fresh unit with a given identifier, as of a given time.
    pub fn new_at(
        bank_id: &str,
        text: &str,
        fact_type: FactType,
        id: String,
        t: Timestamp,
    ) -> (r: MemoryUnit)
        ensures
            r.wf(),
            r@ == fresh_unit(bank_id@, text@, fact_type, id@, t),
    {
        let r = MemoryUnit {
            id,
            bank_id: owned(bank_id),
            document_id: None,
            text: owned(text),
            fact_type,
            context: None,
            event_date: None,
            occurred_start: None,
            occurred_end: None,
            mentioned_at: t,
            tags: Vec::new(),
            metadata: StrMap::new(),
            embedding: Vec::new(),
            source_memory_ids: Vec::new(),
            proof_count: if fact_type == FactType::Observation {
                1
            } else {
                0
            },
            history: Vec::new(),
            created_at: t,
        };
        proof {
            assert(r@.tags =~= Seq::empty());
            assert(r@.source_memory_ids =~= Seq::empty());
            assert(r@.history =~= Seq::empty());
            assert(r@.embedding =~= Seq::empty());
        }
        r
    }

    /// When the unit took place: its event date, else when it was mentioned.
    pub fn time(&self) -> (r: Timestamp)
        ensures
            r == unit_time(self@),
    {
        match self.event_date {
            Some(t) => t,
            None => self.mentioned_at,
        }
    }
}

/// A copy of a history.
fn copy_history(v: &Vec<ObservationHistoryEntry>) -> (r: Vec<ObservationHistoryEntry>)
    ensures
        revision_views(r@) == revision_views(v@),
{
    let mut out: Vec<ObservationHistoryEntry> = Vec::new();
    for i in 0..v.len()
        invariant
            revision_views(out@) == revision_views(v@).take(i as int),
    {
        let ghost before = out@;
        out.push(
            ObservationHistoryEntry {
                at: v[i].at,
                action: v[i].action.clone(),
                note: copy_opt(&v[i].note),
            },
        );
        proof {
            assert(out@.last()@ == v@[i as int]@);
            assert(revision_views(out@) =~= revision_views(before).push(v@[i as int]@));
            assert(revision_views(out@) =~= revision_views(v@).take(i + 1));
        }
    }
    proof {
        assert(revision_views(v@).take(v@.len() as int) =~= revision_views(v@));
    }
    out
}

/// A copy of an embedding.
fn copy_embedding(v: &Vec<u32>) -> (r: Vec<u32>)
    ensures
        r@ == v@,
{
    let r: Vec<u32> = v.clone();
    proof {
        assert(r@ =~= v@);
    }
    r
}

impl Clone for MemoryUnit {
    fn clone(&self) -> (r: MemoryUnit)
        ensures
            r@ == self@,
            r.wf() == self.wf(),
    {
        MemoryUnit {
            id: self.id.clone(),
            bank_id: self.bank_id.clone(),
            document_id: copy_opt(&self.document_id),
            text: self.text.clone(),
            fact_type: self.fact_type,
            context: copy_opt(&self.context),
            event_date: self.event_date,
            occurred_start: self.occurred_start,
            occurred_end: self.occurred_end,
            mentioned_at: self.mentioned_at,
            tags: copy_strings(&self.tags),
            metadata: self.metadata.clone(),
            embedding: copy_embedding(&self.embedding),
            source_memory_ids: copy_strings(&self.source_memory_ids),
            proof_count: self.proof_count,
            history: copy_history(&self.history),
            created_at: self.created_at,
        }
    }
}

/// A named entity that appears in one or more memory units.
#[derive(Debug, Clone)]
pub struct Entity {
    pub id: String,
    pub bank_id: String,
    pub canonical_name: String,
    pub entity_type: Option<String>,
    pub first_seen: Timestamp,
    pub last_seen: Timestamp,
    pub mention_count: u32,
}

impl Entity {
    pub fn new(bank_id: &str, canonical_name: &str, entity_type: Option<String>) -> (r: Entity)
        ensures
            r.id@.len() == 36,
            r.bank_id@ == bank_id@,
            r.canonical_name@ == canonical_name@,
            r.entity_type == entity_type,
            r.first_seen == r.last_seen,
            r.mention_count == 0,
    {
        let t: Timestamp = now();
        Entity {
            id: fresh_id(),
            bank_id: owned(bank_id),
            canonical_name: owned(canonical_name),
            entity_type,
            first_seen: t,
            last_seen: t,
            mention_count: 0,
        }
    }
}

/// An edge between two memory units. Retrieval treats it as undirected.
#[derive(Debug, Clone)]
pub struct MemoryLink {
    pub from_unit_id: String,
    pub to_unit_id: String,
    pub link_type: LinkType,
    /// The entity that mediates the edge, if any.
    pub entity_id: Option<String>,
    /// In billionths.
    pub weight: i64,
}

/// A link as a mathematical value.
pub struct Link {
    pub from_id: Seq<char>,
    pub to_id: Seq<char>,
    pub link_type: LinkType,
    pub entity_id: Option<Seq<char>>,
    pub weight: i64,
}

impl View for MemoryLink {
    type V = Link;

    open spec fn view(&self) -> Link {
        Link {
            from_id: self.from_unit_id@,
            to_id: self.to_unit_id@,
            link_type: self.link_type,
            entity_id: opt_view(self.entity_id),
            weight: self.weight,
        }
    }
}

/// The views of a sequence of links.
pub open spec fn link_views(s: Seq<MemoryLink>) -> Seq<Link> {
    s.map_values(|l: MemoryLink| l@)
}

/// What a memory entry is about.
#[derive(Debug, Clone, Copy, PartialEq, Eq, Structural)]
pub enum MemoryType {
    Session,
    Conversation,
    Knowledge,
    Preference,
    Task,
    Error,
    Insight,
}

/// The tag of a memory type.
pub open spec fn type_tag(x: MemoryType) -> Seq<char> {
    match x {
        MemoryType::Session => "session"@,
        MemoryType::Conversation => "conversation"@,
        MemoryType::Knowledge => "knowledge"@,
        MemoryType::Preference => "preference"@,
        MemoryType::Task => "task"@,
        MemoryType::Error => "error"@,
        MemoryType::Insight => "insight"@,
    }
}

/// The memory type of a tag.
pub open spec fn type_of_tag(s: Seq<char>) -> Option<MemoryType> {
    if s == "session"@ {
        Some(MemoryType::Session)
    } else if s == "conversation"@ {
        Some(MemoryType::Conversation)
    } else if s == "knowledge"@ {
        Some(MemoryType::Knowledge)
    } else if s == "preference"@ {
        Some(MemoryType::Preference)
    } else if s == "task"@ {
        Some(MemoryType::Task)
    } else if s == "error"@ {
        Some(MemoryType::Error)
    } else if s == "insight"@ {
        Some(MemoryType::Insight)
    } else {
        None
    }
}

/// The fact type under which a memory type is stored.
pub open spec fn stored_as(t: MemoryType) -> FactType {
    match t {
        MemoryType::Knowledge => FactType::World,
        MemoryType::Preference => FactType::World,
        MemoryType::Insight => FactType::Observation,
        _ => FactType::Experience,
    }
}

/// The memory type that a fact type is shown as where no tag says more.
pub open spec fn shown_as(t: FactType) -> MemoryType {
    match t {
        FactType::World => MemoryType::Knowledge,
        FactType::Experience => MemoryType::Conversation,
        FactType::Observation => MemoryType::Insight,
    }
}

impl MemoryType {
    pub fn as_tag(&self) -> (r: &'static str)
        ensures
            r@ == type_tag(*self),
    {
        match self {
            MemoryType::Session => "session",
            MemoryType::Conversation => "conversation",
            MemoryType::Knowledge => "knowledge",
            MemoryType::Preference => "preference",
            MemoryType::Task => "task",
            MemoryType::Error => "error",
            MemoryType::Insight => "insight",
        }
    }

    pub fn from_tag(s: &str) -> (r: Option<MemoryType>)
        ensures
            r == type_of_tag(s@),
    {
        if same(s, "session") {
            Some(MemoryType::Session)
        } else if same(s, "conversation") {
            Some(MemoryType::Conversation)
        } else if same(s, "knowledge") {
            Some(MemoryType::Knowledge)
        } else if same(s, "preference") {
            Some(MemoryType::Preference)
        } else if same(s, "task") {
            Some(MemoryType::Task)
        } else if same(s, "error") {
            Some(MemoryType::Error)
        } else if same(s, "insight") {
            Some(MemoryType::Insight)
        } else {
            None
        }
    }

    pub fn fact_type(&self) -> (r: FactType)
        ensures
            r == stored_as(*self),
    {
        match self {
            MemoryType::Knowledge => FactType::World,
            MemoryType::Preference => FactType::World,
            MemoryType::Insight => FactType::Observation,
            _ => FactType::Experience,
        }
    }
}

/// Reading the tag of a memory type gives it back.
pub proof fn law_type_tags(x: MemoryType)
    ensures
        type_of_tag(type_tag(x)) == Some(x),
{
    reveal_strlit("session");
    reveal_strlit("conversation");
    reveal_strlit("knowledge");
    reveal_strlit("preference");
    reveal_strlit("task");
    reveal_strlit("error");
    reveal_strlit("insight");
    assert("session"@.len() == 7);
    assert("conversation"@.len() == 12);
    assert("knowledge"@.len() == 9);
    assert("preference"@.len() == 10);
    assert("task"@.len() == 4);
    assert("error"@.len() == 5);
    assert("insight"@.len() == 7);
    assert("session"@[0] != "insight"@[0]);
}

/// A memory in its flat form.
#[derive(Debug, Clone)]
pub struct MemoryEntry {
    pub id: String,
    pub memory_type: MemoryType,
    pub content: String,
    pub timestamp: Timestamp,
    /// In billionths.
    pub importance: u64,
    pub tags: Vec<String>,
    /// Each value as its compact JSON text.
    pub metadata: StrMap,
    pub embedding: Option<Vec<u32>>,
}

/// An entry as a mathematical value.
pub struct Entry {
    pub id: Seq<char>,
    pub memory_type: MemoryType,
    pub content: Seq<char>,
    pub timestamp: Timestamp,
    pub importance: u64,
    pub tags: Seq<Seq<char>>,
    pub metadata: Map<Seq<char>, Seq<char>>,
    pub embedding: Option<Seq<u32>>,
}

impl View for MemoryEntry {
    type V = Entry;

    open spec fn view(&self) -> Entry {
        Entry {
            id: self.id@,
            memory_type: self.memory_type,
            content: self.content@,
            timestamp: self.timestamp,
            importance: self.importance,
            tags: views(self.tags@),
            metadata: self.metadata@,
            embedding: match self.embedding {
                Some(e) => Some(e@),
                None => None,
            },
        }
    }
}

/// The tag that keeps an entry's memory type on a unit.
pub open spec fn type_mark(t: MemoryType) -> Seq<char> {
    "type:"@ + type_tag(t)
}

/// The tags of an entry's unit: the entry's own, and the mark of its type.
pub open spec fn unit_tags(tags: Seq<Seq<char>>, t: MemoryType) -> Seq<Seq<char>> {
    if tags.contains(type_mark(t)) {
        tags
    } else {
        tags.push(type_mark(t))
    }
}

/// The metadata of an entry's unit: the importance and the memory type,
/// unless the entry's own metadata say otherwise.
pub open spec fn unit_metadata(e: Entry) -> Map<Seq<char>, Seq<char>> {
    Map::<Seq<char>, Seq<char>>::empty().insert(
        "importance"@,
        decimal_text(e.importance as nat),
    ).insert("memory_type"@, type_tag(e.memory_type)).union_prefer_right(e.metadata)
}

/// The unit that stores an entry.
pub open spec fn unit_of_entry(e: Entry, bank_id: Seq<char>) -> Unit {
    Unit {
        id: e.id,
        bank_id,
        document_id: None,
        text: e.content,
        fact_type: stored_as(e.memory_type),
        context: None,
        event_date: Some(e.timestamp),
        occurred_start: Some(e.timestamp),
        occurred_end: None,
        mentioned_at: e.timestamp,
        tags: unit_tags(e.tags, e.memory_type),
        metadata: unit_metadata(e),
        embedding: match e.embedding {
            Some(v) => v,
            None => Seq::empty(),
        },
        source_memory_ids: Seq::empty(),
        proof_count: 0,
        history: Seq::empty(),
        created_at: e.timestamp,
    }
}

/// The memory type that a tag marks.
pub open spec fn marked_type(tag: Seq<char>) -> Option<MemoryType> {
    if begins(tag, "type:"@) {
        type_of_tag(tag.skip(5))
    } else {
        None
    }
}

/// The memory type that the first of the tags to mark one marks.
pub open spec fn first_marked(tags: Seq<Seq<char>>) -> Option<MemoryType>
    decreases tags.len(),
{
    if tags.len() == 0 {
        None
    } else {
        match first_marked(tags.drop_last()) {
            Some(t) => Some(t),
            None => marked_type(tags.last()),
        }
    }
}

/// The tags that mark no type.
pub open spec fn plain_tags(tags: Seq<Seq<char>>) -> Seq<Seq<char>> {
    tags.filter(|t: Seq<char>| !begins(t, "type:"@))
}

/// The importance in a unit's metadata; one half where there is none.
pub open spec fn stored_importance(m: Map<Seq<char>, Seq<char>>) -> u64 {
    if m.dom().contains("importance"@) {
        match parsed_decimal(m["importance"@]) {
            Some(n) => held(n),
            None => HALF,
        }
    } else {
        HALF
    }
}

/// A unit's metadata as an entry's: without what the entry holds elsewhere,
/// each value as the JSON that it is, or as a string where it is none.
pub open spec fn entry_metadata(m: Map<Seq<char>, Seq<char>>) -> Map<Seq<char>, Seq<char>> {
    Map::new(
        |k: Seq<char>| m.dom().contains(k) && k != "importance"@ && k != "memory_type"@,
        |k: Seq<char>| json_value(m[k]),
    )
}

/// A unit in its flat form.
pub open spec fn entry_of_unit(u: Unit) -> Entry {
    Entry {
        id: u.id,
        memory_type: match first_marked(u.tags) {
            Some(t) => t,
            None => shown_as(u.fact_type),
        },
        content: u.text,
        timestamp: unit_time(u),
        importance: stored_importance(u.metadata),
        tags: plain_tags(u.tags),
        metadata: entry_metadata(u.metadata),
        embedding: if u.embedding.len() == 0 {
            None
        } else {
            Some(u.embedding)
        },
    }
}

proof fn lemma_plain(tags: Seq<Seq<char>>)
    requires
        forall|i: int| 0 <= i < tags.len() ==> !begins(#[trigger] tags[i], "type:"@),
    ensures
        plain_tags(tags) == tags,
        first_marked(tags) is None,
    decreases tags.len(),
{
    reveal(Seq::filter);
    if tags.len() > 0 {
        let d = tags.drop_last();
        assert forall|i: int| 0 <= i < d.len() implies !begins(#[trigger] d[i], "type:"@) by {
            assert(d[i] == tags[i]);
        }
        lemma_plain(d);
        assert(!begins(tags[tags.len() - 1], "type:"@));
        assert(d.push(tags.last()) =~= tags);
    }
}

/// Storing an entry as a unit and showing that unit again gives back the
/// entry; an empty embedding comes back as none. The entry's tags mark no
/// type, and its metadata are JSON in compact form under neither of the two
/// reserved keys.
pub proof fn law_entry_round_trip(e: Entry, bank_id: Seq<char>)
    requires
        forall|i: int| 0 <= i < e.tags.len() ==> !begins(#[trigger] e.tags[i], "type:"@),
        !e.metadata.dom().contains("importance"@),
        !e.metadata.dom().contains("memory_type"@),
        forall|k: Seq<char>| #[trigger]
            e.metadata.dom().contains(k) ==> json_canonical(e.metadata[k]) == Some(e.metadata[k]),
    ensures
        ({
            let b = entry_of_unit(unit_of_entry(e, bank_id));
            &&& b.id == e.id
            &&& b.memory_type == e.memory_type
            &&& b.content == e.content
            &&& b.timestamp == e.timestamp
            &&& b.importance == e.importance
            &&& b.tags == e.tags
            &&& b.embedding == (if e.embedding matches Some(v) && v.len() > 0 {
                e.embedding
            } else {
                None
            })
            &&& b.metadata == e.metadata
        }),
{
    reveal(Seq::filter);
    reveal_strlit("type:");
    reveal_strlit("importance");
    reveal_strlit("memory_type");
    assert("importance"@.len() == 10 && "memory_type"@.len() == 11);
    let mark = type_mark(e.memory_type);
    assert("type:"@.len() == 5);
    assert(mark.take(5) =~= "type:"@);
    assert(mark.skip(5) =~= type_tag(e.memory_type));
    law_type_tags(e.memory_type);
    lemma_plain(e.tags);
    if e.tags.contains(mark) {
        let i = choose|i: int| 0 <= i < e.tags.len() && e.tags[i] == mark;
        assert(begins(e.tags[i], "type:"@));
    }
    let tags = e.tags.push(mark);
    assert(tags.drop_last() =~= e.tags);
    law_decimal_round_trip(e.importance as nat);
    let u = unit_of_entry(e, bank_id);
    assert(u.metadata["importance"@] == decimal_text(e.importance as nat));
    assert(entry_of_unit(u).metadata.dom() =~= e.metadata.dom());
}

impl MemoryEntry {
    /// The invariant: the metadata is a map.
    pub open spec fn wf(&self) -> bool {
        self.metadata.wf()
    }

    /// A fresh entry as of now.
    pub fn new(memory_type: MemoryType, content: &str) -> (r: MemoryEntry)
        ensures
            r.wf(),
            r@ == (Entry {
                id: r@.id,
                memory_type,
                content: content@,
                timestamp: r@.timestamp,
                importance: HALF,
                tags: Seq::empty(),
                metadata: Map::empty(),
                embedding: None,
            }),
            r@.id.len() == 36,
    {
        let r = MemoryEntry {
            id: fresh_id(),
            memory_type,
            content: owned(content),
            timestamp: now(),
            importance: HALF,
            tags: Vec::new(),
            metadata: StrMap::new(),
            embedding: None,
        };
        proof {
            assert(r@.tags =~= Seq::empty());
        }
        r
    }

    /// Sets the importance, held to at most one.
    pub fn with_importance(self, importance: u64) -> (r: MemoryEntry)
        ensures
            r.wf() == self.wf(),
            r@ == (Entry {
                importance: if importance > ONE {
                    ONE
                } else {
                    importance
                },
                ..self@
            }),
    {
        let mut e: MemoryEntry = self;
        e.importance = if importance > ONE {
            ONE
        } else {
            importance
        };
        e
    }

    pub fn with_tags(self, tags: Vec<String>) -> (r: MemoryEntry)
        ensures
            r.wf() == self.wf(),
            r@ == (Entry { tags: views(tags@), ..self@ }),
    {
        let mut e: MemoryEntry = self;
        e.tags = tags;
        e
    }

    /// Sets a metadata value, given as its compact JSON text.
    pub fn with_metadata(self, key: &str, json: &str) -> (r: MemoryEntry)
        requires
            self.wf(),
        ensures
            r.wf(),
            r@ == (Entry { metadata: self@.metadata.insert(key@, json@), ..self@ }),
    {
        let mut e: MemoryEntry = self;
        e.metadata.insert(key, owned(json));
        e
    }

    /// Turns the entry into the unit that stores it.
    pub fn into_unit(self, bank_id: &str) -> (r: MemoryUnit)
        requires
            self.wf(),
        ensures
            r.wf(),
            r@ == unit_of_entry(self@, bank_id@),
    {
        let mut mark: String = owned("type:");
        mark.append(self.memory_type.as_tag());
        let mut tags: Vec<String> = self.tags;
        if !has_string(&tags, mark.as_str()) {
            proof {
                lemma_views_push(tags@, mark);
            }
            tags.push(mark);
        }
        let mut metadata: StrMap = StrMap::new();
        metadata.insert("importance", fmt_decimal(self.importance));
        metadata.insert("memory_type", owned(self.memory_type.as_tag()));
        let ghost base = metadata@;
        let own: StrMap = self.metadata;
        proof {
            assert(base.union_prefer_right(map_of(own.entries@.take(0))) =~= base);
        }
        for i in 0..own.entries.len()
            invariant
                own.wf(),
                metadata.wf(),
                metadata@ == base.union_prefer_right(map_of(own.entries@.take(i as int))),
        {
            let v: String = own.entries[i].1.clone();
            metadata.insert(own.entries[i].0.as_str(), v);
            proof {
                let t = own.entries@.take(i + 1);
                assert(t.drop_last() =~= own.entries@.take(i as int));
                assert(metadata@ =~= base.union_prefer_right(map_of(t)));
            }
        }
        proof {
            assert(own.entries@.take(own.entries@.len() as int) =~= own.entries@);
        }
        let embedding: Vec<u32> = match self.embedding {
            Some(e) => e,
            None => Vec::new(),
        };
        let r = MemoryUnit {
            id: self.id,
            bank_id: owned(bank_id),
            document_id: None,
            text: self.content,
            fact_type: self.memory_type.fact_type(),
            context: None,
            event_date: Some(self.timestamp),
            occurred_start: Some(self.timestamp),
            occurred_end: None,
            mentioned_at: self.timestamp,
            tags,
            metadata,
            embedding,
            source_memory_ids: Vec::new(),
            proof_count: 0,
            history: Vec::new(),
            created_at: self.timestamp,
        };
        proof {
            assert(r@.source_memory_ids =~= Seq::empty());
            assert(r@.history =~= Seq::empty());
            assert(r@.metadata =~= unit_metadata(self@));
            assert(r@.embedding =~= unit_of_entry(self@, bank_id@).embedding);
        }
        r
    }

    /// Shows a unit in its flat form.
    pub fn from_unit(unit: &MemoryUnit) -> (r: MemoryEntry)
        requires
            unit.wf(),
        ensures
            r.wf(),
            r@ == entry_of_unit(unit@),
    {
        let ghost tv = views(unit.tags@);
        let mut found: Option<MemoryType> = None;
        let mut tags: Vec<String> = Vec::new();
        proof {
            reveal(Seq::filter);
            reveal_strlit("type:");
            assert(views(tags@) =~= plain_tags(tv.take(0)));
        }
        for i in 0..unit.tags.len()
            invariant
                tv == views(unit.tags@),
                found == first_marked(tv.take(i as int)),
                views(tags@) == plain_tags(tv.take(i as int)),
        {
            proof {
                reveal(Seq::filter);
                reveal_strlit("type:");
                assert("type:"@.len() == 5);
                assert(tv.take(i + 1).drop_last() =~= tv.take(i as int));
                assert(tv.take(i + 1).last() == unit.tags@[i as int]@);
            }
            match strip_prefix(unit.tags[i].as_str(), "type:") {
                Some(rest) => {
                    if found.is_none() {
                        found = MemoryType::from_tag(rest.as_str());
                    }
                },
                None => {
                    let t: String = unit.tags[i].clone();
                    proof {
                        lemma_views_push(tags@, t);
                    }
                    tags.push(t);
                },
            }
        }
        proof {
            assert(tv.take(tv.len() as int) =~= tv);
        }
        let memory_type: MemoryType = match found {
            Some(t) => t,
            None => match unit.fact_type {
                FactType::World => MemoryType::Knowledge,
                FactType::Experience => MemoryType::Conversation,
                FactType::Observation => MemoryType::Insight,
            },
        };
        let importance: u64 = match unit.metadata.get("importance") {
            Some(s) => match parse_decimal(s.as_str()) {
                Some(n) => n,
                None => HALF,
            },
            None => HALF,
        };
        let mut metadata: StrMap = StrMap::new();
        let ghost es = unit.metadata.entries@;
        proof {
            assert(metadata@ =~= entry_metadata(map_of(es.take(0))));
        }
        for i in 0..unit.metadata.entries.len()
            invariant
                unit.metadata.wf(),
                es == unit.metadata.entries@,
                metadata.wf(),
                metadata@ == entry_metadata(map_of(es.take(i as int))),
        {
            let k: &String = &unit.metadata.entries[i].0;
            proof {
                assert(es.take(i + 1).drop_last() =~= es.take(i as int));
                assert(es.take(i + 1).last() == es[i as int]);
            }
            if !same(k.as_str(), "importance") && !same(k.as_str(), "memory_type") {
                metadata.insert(k.as_str(), read_value(unit.metadata.entries[i].1.as_str()));
            }
            proof {
                assert(metadata@ =~= entry_metadata(map_of(es.take(i + 1))));
            }
        }
        proof {
            assert(es.take(es.len() as int) =~= es);
        }
        let embedding: Option<Vec<u32>> = if unit.embedding.len() == 0 {
            None
        } else {
            Some(copy_embedding(&unit.embedding))
        };
        MemoryEntry {
            id: unit.id.clone(),
            memory_type,
            content: unit.text.clone(),
            timestamp: unit.time(),
            importance,
            tags,
            metadata,
            embedding,
        }
    }
}

/// A summary of a bank.
#[derive(Debug, Clone)]
pub struct MemoryStatus {
    pub total_memories: usize,
    pub session_count: usize,
    pub conversation_count: usize,
    pub knowledge_count: usize,
    pub last_consolidation: Option<Timestamp>,
    pub storage_size_bytes: u64,
}

/// A fact type is shown as a memory type that is stored under it again.
pub proof fn law_shown_type_is_stored_alike(t: FactType)
    ensures
        stored_as(shown_as(t)) == t,
        stored_as(MemoryType::Preference) == FactType::World,
        forall|m: MemoryType| #[trigger]
            stored_as(m) == FactType::Observation ==> m == MemoryType::Insight,
        forall|m: MemoryType| #[trigger]
            stored_as(m) == FactType::World ==> m == MemoryType::Knowledge || m
                == MemoryType::Preference,
{
}

/// A larger budget fetches more: a hundred, three hundred, a thousand.
pub proof fn law_budgets_grow()
    ensures
        arm_size(Budget::Low) == 100,
        arm_size(Budget::Mid) == 300,
        arm_size(Budget::High) == 1000,
{
}

/// A fresh unit holds what it was made of and nothing more; only an
/// observation starts with one memory in support of it.
pub proof fn law_fresh_unit(
    bank_id: Seq<char>,
    text: Seq<char>,
    fact_type: FactType,
    id: Seq<char>,
    t: Timestamp,
)
    ensures
        ({
            let u = fresh_unit(bank_id, text, fact_type, id, t);
            &&& u.bank_id == bank_id
            &&& u.text == text
            &&& u.fact_type == fact_type
            &&& u.id == id
            &&& u.created_at == t
            &&& unit_time(u) == t
            &&& u.tags.len() == 0
            &&& u.source_memory_ids.len() == 0
            &&& fact_type == FactType::Observation ==> u.proof_count == 1
            &&& fact_type != FactType::Observation ==> u.proof_count == 0
        }),
{
}

/// A unit is dated by its event where it has one, else by its mention.
pub proof fn law_unit_time(u: Unit)
    ensures
        u.event_date matches Some(t) ==> unit_time(u) == t,
        u.event_date is None ==> unit_time(u) == u.mentioned_at,
{
}

/// The type of an entry can be told from the tags and the type of its unit,
/// whatever tags of its own the entry has; these are all kept.
pub proof fn law_unit_keeps_the_tags(e: Entry, bank_id: Seq<char>, tag: Seq<char>)
    ensures
        unit_of_entry(e, bank_id).tags.contains(type_mark(e.memory_type)),
        e.tags.contains(tag) ==> unit_of_entry(e, bank_id).tags.contains(tag),
        unit_of_entry(e, bank_id).tags.contains(tag) ==> e.tags.contains(tag) || tag == type_mark(
            e.memory_type,
        ),
{
    let m = type_mark(e.memory_type);
    let r = unit_of_entry(e, bank_id).tags;
    if !e.tags.contains(m) {
        assert(r[r.len() - 1] == m);
        if e.tags.contains(tag) {
            let k = choose|k: int| 0 <= k < e.tags.len() && e.tags[k] == tag;
            assert(r[k] == tag);
        }
    }
}

} // verus!
