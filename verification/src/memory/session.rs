//! Conversations. A session is stored as a document; each of its messages
//! is a memory unit of experience that belongs to the document.
use crate::ambient::{fresh_id, now, Timestamp};
use crate::memory::history::value_of;
use crate::memory::model::{
    fresh_document, unit_time, unit_views, units_wf, Budget, Document, DocumentView, FactType,
    MemoryUnit, TagMatch, Unit,
};
use crate::memory::recall::RecallRequest;
use crate::memory::retain::{with_optional, Item, RetainItem};
use crate::strmap::StrMap;
use crate::text::{
    copy_opt, dec, fmt_u64, lemma_views_push, opt_view, owned, parse_nat, parsed_nat, same, views,
};
use vstd::prelude::*;

verus! {

#[derive(Debug, Clone, Copy, PartialEq, Eq, Structural)]
pub enum SessionStatus {
    Active,
    Paused,
    Archived,
    Error,
}

/// The stored name of a status.
pub open spec fn status_name(s: SessionStatus) -> Seq<char> {
    match s {
        SessionStatus::Active => "active"@,
        SessionStatus::Paused => "paused"@,
        SessionStatus::Archived => "archived"@,
        SessionStatus::Error => "error"@,
    }
}

/// The status of a stored name; an unknown one counts as active.
pub open spec fn status_of(s: Seq<char>) -> SessionStatus {
    if s == "paused"@ {
        SessionStatus::Paused
    } else if s == "archived"@ {
        SessionStatus::Archived
    } else if s == "error"@ {
        SessionStatus::Error
    } else {
        SessionStatus::Active
    }
}

/// Reading the name of a status gives it back.
pub proof fn law_status_names(s: SessionStatus)
    ensures
        status_of(status_name(s)) == s,
{
    reveal_strlit("active");
    reveal_strlit("paused");
    reveal_strlit("archived");
    reveal_strlit("error");
    assert("active"@.len() == 6);
    assert("paused"@.len() == 6);
    assert("archived"@.len() == 8);
    assert("error"@.len() == 5);
    assert("active"@[0] != "paused"@[0]);
}

impl SessionStatus {
    pub fn as_str(&self) -> (r: &'static str)
        ensures
            r@ == status_name(*self),
    {
        match self {
            SessionStatus::Active => "active",
            SessionStatus::Paused => "paused",
            SessionStatus::Archived => "archived",
            SessionStatus::Error => "error",
        }
    }

    pub fn from_str(s: &str) -> (r: SessionStatus)
        ensures
            r == status_of(s@),
    {
        if same(s, "paused") {
            SessionStatus::Paused
        } else if same(s, "archived") {
            SessionStatus::Archived
        } else if same(s, "error") {
            SessionStatus::Error
        } else {
            SessionStatus::Active
        }
    }
}

#[derive(Debug)]
pub struct SessionMessage {
    pub role: String,
    pub content: String,
    pub timestamp: Timestamp,
    /// Each value as its compact JSON text.
    pub metadata: StrMap,
}

/// A message as a mathematical value.
pub struct Message {
    pub role: Seq<char>,
    pub content: Seq<char>,
    pub timestamp: Timestamp,
    pub metadata: Map<Seq<char>, Seq<char>>,
}

impl View for SessionMessage {
    type V = Message;

    open spec fn view(&self) -> Message {
        Message {
            role: self.role@,
            content: self.content@,
            timestamp: self.timestamp,
            metadata: self.metadata@,
        }
    }
}

/// The views of a sequence of messages.
pub open spec fn message_views(s: Seq<SessionMessage>) -> Seq<Message> {
    s.map_values(|m: SessionMessage| m@)
}

impl Clone for SessionMessage {
    fn clone(&self) -> (r: SessionMessage)
        ensures
            r@ == self@,
    {
        SessionMessage {
            role: self.role.clone(),
            content: self.content.clone(),
            timestamp: self.timestamp,
            metadata: self.metadata.clone(),
        }
    }
}

#[derive(Debug)]
pub struct Session {
    pub id: String,
    pub name: String,
    pub project_path: Option<String>,
    pub created_at: Timestamp,
    pub updated_at: Timestamp,
    pub messages: Vec<SessionMessage>,
    /// Each value as its compact JSON text.
    pub metadata: StrMap,
    pub status: SessionStatus,
}

/// A session as a mathematical value.
pub struct SessionView {
    pub id: Seq<char>,
    pub name: Seq<char>,
    pub project_path: Option<Seq<char>>,
    pub created_at: Timestamp,
    pub updated_at: Timestamp,
    pub messages: Seq<Message>,
    pub metadata: Map<Seq<char>, Seq<char>>,
    pub status: SessionStatus,
}

impl View for Session {
    type V = SessionView;

    open spec fn view(&self) -> SessionView {
        SessionView {
            id: self.id@,
            name: self.name@,
            project_path: opt_view(self.project_path),
            created_at: self.created_at,
            updated_at: self.updated_at,
            messages: message_views(self.messages@),
            metadata: self.metadata@,
            status: self.status,
        }
    }
}

/// The views of a sequence of sessions.
pub open spec fn session_views(s: Seq<Session>) -> Seq<SessionView> {
    s.map_values(|x: Session| x@)
}

/// A message without metadata.
pub open spec fn plain_message(role: Seq<char>, content: Seq<char>, t: Timestamp) -> Message {
    Message { role, content, timestamp: t, metadata: Map::empty() }
}

/// A session after a message as of a given time.
pub open spec fn with_message(
    s: SessionView,
    role: Seq<char>,
    content: Seq<char>,
    t: Timestamp,
) -> SessionView {
    SessionView {
        messages: s.messages.push(plain_message(role, content, t)),
        updated_at: t,
        ..s
    }
}

fn copy_messages(v: &Vec<SessionMessage>) -> (r: Vec<SessionMessage>)
    ensures
        message_views(r@) == message_views(v@),
{
    let mut out: Vec<SessionMessage> = Vec::new();
    for i in 0..v.len()
        invariant
            message_views(out@) == message_views(v@).take(i as int),
    {
        let m: SessionMessage = v[i].clone();
        let ghost before = out@;
        out.push(m);
        proof {
            assert(message_views(out@) =~= message_views(before).push(m@));
            assert(message_views(v@).take(i + 1) =~= message_views(v@).take(i as int).push(m@));
        }
    }
    proof {
        assert(message_views(v@).take(v@.len() as int) =~= message_views(v@));
    }
    out
}

impl Clone for Session {
    fn clone(&self) -> (r: Session)
        ensures
            r@ == self@,
    {
        Session {
            id: self.id.clone(),
            name: self.name.clone(),
            project_path: copy_opt(&self.project_path),
            created_at: self.created_at,
            updated_at: self.updated_at,
            messages: copy_messages(&self.messages),
            metadata: self.metadata.clone(),
            status: self.status,
        }
    }
}

impl Session {
    /// A fresh, active session as of now; without a name it is named by its
    /// identifier.
    pub fn new(name: Option<&str>) -> (r: Session)
        ensures
            r@ == (SessionView {
                id: r@.id,
                name: match name {
                    Some(n) => n@,
                    None => r@.id,
                },
                project_path: None,
                created_at: r@.created_at,
                updated_at: r@.created_at,
                messages: Seq::empty(),
                metadata: Map::empty(),
                status: SessionStatus::Active,
            }),
            r@.id.len() == 36,
    {
        let id: String = fresh_id();
        let t: Timestamp = now();
        let name: String = match name {
            Some(n) => owned(n),
            None => id.clone(),
        };
        let r = Session {
            id,
            name,
            project_path: None,
            created_at: t,
            updated_at: t,
            messages: Vec::new(),
            metadata: StrMap::new(),
            status: SessionStatus::Active,
        };
        proof {
            assert(r@.messages =~= Seq::empty());
        }
        r
    }

    pub fn with_project(self, path: String) -> (r: Session)
        ensures
            r@ == (SessionView { project_path: Some(path@), ..self@ }),
    {
        let mut s: Session = self;
        s.project_path = Some(path);
        s
    }

    /// Adds a message as of now.
    pub fn add_message(&mut self, role: &str, content: &str)
        ensures
            exists|t: Timestamp|
                final(self)@ == #[trigger] with_message(old(self)@, role@, content@, t),
    {
        let t: Timestamp = now();
        self.add_message_at(role, content, t);
    }

    /// Adds a message as of a given time.
    pub fn add_message_at(&mut self, role: &str, content: &str, t: Timestamp)
        ensures
            final(self)@ == with_message(old(self)@, role@, content@, t),
    {
        let m = SessionMessage {
            role: owned(role),
            content: owned(content),
            timestamp: t,
            metadata: StrMap::new(),
        };
        self.messages.push(m);
        self.updated_at = t;
        proof {
            assert(self@.messages =~= old(self)@.messages.push(m@));
        }
    }

    pub fn message_count(&self) -> (r: usize)
        ensures
            r == self@.messages.len(),
    {
        self.messages.len()
    }
}

/// A summary of a session.
#[derive(Debug, Clone)]
pub struct SessionInfo {
    pub id: String,
    pub name: String,
    pub project_path: Option<String>,
    pub created_at: Timestamp,
    pub updated_at: Timestamp,
    pub message_count: usize,
    pub status: SessionStatus,
}

/// A summary as a mathematical value.
pub struct Info {
    pub id: Seq<char>,
    pub name: Seq<char>,
    pub project_path: Option<Seq<char>>,
    pub created_at: Timestamp,
    pub updated_at: Timestamp,
    pub message_count: usize,
    pub status: SessionStatus,
}

impl View for SessionInfo {
    type V = Info;

    open spec fn view(&self) -> Info {
        Info {
            id: self.id@,
            name: self.name@,
            project_path: opt_view(self.project_path),
            created_at: self.created_at,
            updated_at: self.updated_at,
            message_count: self.message_count,
            status: self.status,
        }
    }
}

/// The views of a sequence of summaries.
pub open spec fn info_views(s: Seq<SessionInfo>) -> Seq<Info> {
    s.map_values(|x: SessionInfo| x@)
}

/// The document that stores a session, made at the given time.
pub open spec fn session_document(s: SessionView, bank_id: Seq<char>) -> DocumentView {
    DocumentView {
        metadata: with_optional(
            Map::<Seq<char>, Seq<char>>::empty().insert("session_name"@, s.name).insert(
                "status"@,
                status_name(s.status),
            ),
            "project_path"@,
            s.project_path,
        ).insert("message_count"@, dec(s.messages.len())),
        created_at: s.created_at,
        updated_at: s.updated_at,
        ..fresh_document(s.id, bank_id, s.created_at)
    }
}

/// The name of a document's session: the stored one, else its identifier.
pub open spec fn stored_name(d: DocumentView) -> Seq<char> {
    match value_of(d.metadata, "session_name"@) {
        Some(n) => n,
        None => d.id,
    }
}

/// The status of a document's session: the stored one, else active.
pub open spec fn stored_status(d: DocumentView) -> SessionStatus {
    match value_of(d.metadata, "status"@) {
        Some(s) => status_of(s),
        None => SessionStatus::Active,
    }
}

/// The number of messages that a document's session has on record.
pub open spec fn stored_count(d: DocumentView) -> usize {
    match value_of(d.metadata, "message_count"@) {
        Some(s) => match parsed_nat(s) {
            Some(n) => if n <= usize::MAX {
                n as usize
            } else {
                0
            },
            None => 0,
        },
        None => 0,
    }
}

/// The summary of a document's session.
pub open spec fn info_of_document(d: DocumentView) -> Info {
    Info {
        id: d.id,
        name: stored_name(d),
        project_path: value_of(d.metadata, "project_path"@),
        created_at: d.created_at,
        updated_at: d.updated_at,
        message_count: stored_count(d),
        status: stored_status(d),
    }
}

/// The summary of a session.
pub open spec fn info_of_session(s: SessionView) -> Info {
    Info {
        id: s.id,
        name: s.name,
        project_path: s.project_path,
        created_at: s.created_at,
        updated_at: s.updated_at,
        message_count: s.messages.len() as usize,
        status: s.status,
    }
}

/// A unit as a message.
pub open spec fn message_of_unit(u: Unit) -> Message {
    Message {
        role: match value_of(u.metadata, "role"@) {
            Some(r) => r,
            None => "user"@,
        },
        content: u.text,
        timestamp: unit_time(u),
        metadata: Map::empty(),
    }
}

/// The messages among some units that belong to a document.
pub open spec fn messages_of(us: Seq<Unit>, id: Seq<char>) -> Seq<Message>
    decreases us.len(),
{
    if us.len() == 0 {
        seq![]
    } else {
        let before = messages_of(us.drop_last(), id);
        if us.last().document_id == Some(id) {
            before.push(message_of_unit(us.last()))
        } else {
            before
        }
    }
}

/// The session that a document and some units stand for.
pub open spec fn loaded_session(d: DocumentView, us: Seq<Unit>, id: Seq<char>) -> SessionView {
    SessionView {
        id,
        name: match value_of(d.metadata, "session_name"@) {
            Some(n) => n,
            None => id,
        },
        project_path: value_of(d.metadata, "project_path"@),
        created_at: d.created_at,
        updated_at: d.updated_at,
        messages: messages_of(us, id),
        metadata: Map::empty(),
        status: stored_status(d),
    }
}

/// Listing a stored session shows what it was stored with.
pub proof fn law_session_document_round_trip(s: SessionView, bank_id: Seq<char>)
    requires
        s.messages.len() <= usize::MAX,
    ensures
        info_of_document(session_document(s, bank_id)) == info_of_session(s),
{
    reveal_strlit("session_name");
    reveal_strlit("status");
    reveal_strlit("project_path");
    reveal_strlit("message_count");
    assert("session_name"@.len() == 12);
    assert("status"@.len() == 6);
    assert("project_path"@.len() == 12);
    assert("message_count"@.len() == 13);
    assert("session_name"@[0] != "project_path"@[0]);
    law_status_names(s.status);
    crate::text::lemma_dec(s.messages.len());
    let d = dec(s.messages.len());
    assert('0' <= d[0] <= '9');
}

/// Whether a list of summaries holds one of a session.
pub open spec fn has_info(infos: Seq<Info>, id: Seq<char>) -> bool {
    exists|i: int| 0 <= i < infos.len() && (#[trigger] infos[i]).id == id
}

/// Summaries with those of the first `n` cached sessions added that are not
/// there yet.
pub open spec fn with_cached(infos: Seq<Info>, cache: Seq<SessionView>, n: nat) -> Seq<Info>
    decreases n,
{
    if n == 0 {
        infos
    } else {
        let before = with_cached(infos, cache, (n - 1) as nat);
        if has_info(before, cache[n - 1].id) {
            before
        } else {
            before.push(info_of_session(cache[n - 1]))
        }
    }
}

/// The views of a sequence of documents.
pub open spec fn document_views(s: Seq<Document>) -> Seq<DocumentView> {
    s.map_values(|d: Document| d@)
}

/// The summaries of all stored and cached sessions.
pub open spec fn all_infos(docs: Seq<DocumentView>, cache: Seq<SessionView>) -> Seq<Info> {
    with_cached(docs.map_values(|d: DocumentView| info_of_document(d)), cache, cache.len())
}

/// The summary of a session that a search found through one of its units.
pub open spec fn found_info(u: Unit, t: Timestamp) -> Info {
    Info {
        id: u.document_id->0,
        name: u.document_id->0,
        project_path: None,
        created_at: t,
        updated_at: unit_time(u),
        message_count: 0,
        status: SessionStatus::Active,
    }
}

/// The sessions that the first `n` units found belong to, each once.
pub open spec fn found_infos(us: Seq<Unit>, n: nat, t: Timestamp) -> Seq<Info>
    decreases n,
{
    if n == 0 {
        seq![]
    } else {
        let before = found_infos(us, (n - 1) as nat, t);
        let u = us[n - 1];
        if u.document_id is Some && !has_info(before, u.document_id->0) {
            before.push(found_info(u, t))
        } else {
            before
        }
    }
}

/// The tags that a message is stored with.
pub open spec fn message_tags(id: Seq<char>, role: Seq<char>) -> Seq<Seq<char>> {
    let t = seq!["type:conversation"@, "session:"@ + id, "role:"@ + role];
    if role == "system"@ {
        t.push("type:session"@)
    } else {
        t
    }
}

/// The item that stores a message.
pub open spec fn message_item(
    id: Seq<char>,
    role: Seq<char>,
    content: Seq<char>,
    t: Timestamp,
) -> Item {
    Item {
        content,
        timestamp: Some(t),
        context: Some("session/"@ + id + "/"@ + role),
        document_id: Some(id),
        tags: message_tags(id, role),
        metadata: Map::<Seq<char>, Seq<char>>::empty().insert("role"@, role).insert(
            "session_id"@,
            id,
        ),
        raw_fact_type: Some(FactType::Experience),
    }
}

/// A unit that stores a message reads back as that message. Any unit that
/// keeps the item's content, time and metadata will do.
pub proof fn law_message_round_trip(
    id: Seq<char>,
    role: Seq<char>,
    content: Seq<char>,
    t: Timestamp,
    u: Unit,
)
    requires
        u.text == content,
        u.event_date == Some(t),
        u.metadata == message_item(id, role, content, t).metadata,
    ensures
        message_of_unit(u) == plain_message(role, content, t),
{
    reveal_strlit("role");
    reveal_strlit("session_id");
    assert("role"@.len() == 4);
    assert("session_id"@.len() == 10);
}

/// Turns a session into the document that stores it.
pub fn document_of(session: &Session, bank_id: &str) -> (r: Document)
    ensures
        r.wf(),
        r@ == session_document(session@, bank_id@),
{
    let mut metadata: StrMap = StrMap::new();
    metadata.insert("session_name", session.name.clone());
    metadata.insert("status", owned(session.status.as_str()));
    match &session.project_path {
        Some(p) => {
            metadata.insert("project_path", p.clone());
        },
        None => {},
    }
    metadata.insert("message_count", fmt_u64(session.messages.len() as u64));
    Document {
        id: session.id.clone(),
        bank_id: owned(bank_id),
        original_text: None,
        content_hash: None,
        metadata,
        created_at: session.created_at,
        updated_at: session.updated_at,
    }
}

fn name_or(metadata: &StrMap, fallback: &str) -> (r: String)
    requires
        metadata.wf(),
    ensures
        r@ == match value_of(metadata@, "session_name"@) {
            Some(n) => n,
            None => fallback@,
        },
{
    match metadata.get("session_name") {
        Some(n) => n.clone(),
        None => owned(fallback),
    }
}

fn path_of(metadata: &StrMap) -> (r: Option<String>)
    requires
        metadata.wf(),
    ensures
        opt_view(r) == value_of(metadata@, "project_path"@),
{
    match metadata.get("project_path") {
        Some(p) => Some(p.clone()),
        None => None,
    }
}

fn status_from(metadata: &StrMap) -> (r: SessionStatus)
    requires
        metadata.wf(),
    ensures
        r == match value_of(metadata@, "status"@) {
            Some(s) => status_of(s),
            None => SessionStatus::Active,
        },
{
    match metadata.get("status") {
        Some(s) => SessionStatus::from_str(s.as_str()),
        None => SessionStatus::Active,
    }
}

/// Reads a session back from its document and the stored units.
pub fn session_from(doc: &Document, units: &Vec<MemoryUnit>, id: &str) -> (r: Session)
    requires
        doc.wf(),
        units_wf(units@),
    ensures
        r@ == loaded_session(doc@, unit_views(units@), id@),
{
    let ghost uv = unit_views(units@);
    let mut messages: Vec<SessionMessage> = Vec::new();
    proof {
        assert(message_views(messages@) =~= seq![]);
    }
    for i in 0..units.len()
        invariant
            units_wf(units@),
            uv == unit_views(units@),
            message_views(messages@) == messages_of(uv.take(i as int), id@),
    {
        let u: &MemoryUnit = &units[i];
        proof {
            assert(units@[i as int].wf());
            assert(uv.take(i + 1).drop_last() =~= uv.take(i as int));
            assert(uv.take(i + 1).last() == u@);
        }
        let mine: bool = match &u.document_id {
            Some(d) => same(d.as_str(), id),
            None => false,
        };
        if mine {
            let role: String = match u.metadata.get("role") {
                Some(r) => r.clone(),
                None => owned("user"),
            };
            let m = SessionMessage {
                role,
                content: u.text.clone(),
                timestamp: u.time(),
                metadata: StrMap::new(),
            };
            let ghost before = messages@;
            messages.push(m);
            proof {
                assert(m@ == message_of_unit(u@));
                assert(message_views(messages@) =~= message_views(before).push(m@));
            }
        }
    }
    proof {
        assert(uv.take(uv.len() as int) =~= uv);
    }
    Session {
        id: owned(id),
        name: name_or(&doc.metadata, id),
        project_path: path_of(&doc.metadata),
        created_at: doc.created_at,
        updated_at: doc.updated_at,
        messages,
        metadata: StrMap::new(),
        status: status_from(&doc.metadata),
    }
}

/// Summarises a document's session.
pub fn document_info(d: &Document) -> (r: SessionInfo)
    requires
        d.wf(),
    ensures
        r@ == info_of_document(d@),
{
    let message_count: usize = match d.metadata.get("message_count") {
        Some(s) => match parse_nat(s.as_str(), usize::MAX as u64) {
            Some(n) => n as usize,
            None => 0,
        },
        None => 0,
    };
    SessionInfo {
        id: d.id.clone(),
        name: name_or(&d.metadata, d.id.as_str()),
        project_path: path_of(&d.metadata),
        created_at: d.created_at,
        updated_at: d.updated_at,
        message_count,
        status: status_from(&d.metadata),
    }
}

fn has_session(infos: &Vec<SessionInfo>, id: &str) -> (r: bool)
    ensures
        r == has_info(info_views(infos@), id@),
{
    let ghost iv = info_views(infos@);
    for i in 0..infos.len()
        invariant
            iv == info_views(infos@),
            forall|k: int| 0 <= k < i ==> (#[trigger] iv[k]).id != id@,
    {
        if same(infos[i].id.as_str(), id) {
            proof {
                assert(iv[i as int].id == id@);
            }
            return true;
        }
    }
    false
}

/// The item that stores a message of a session.
pub fn item_of_message(id: &str, role: &str, content: &str, t: Timestamp) -> (r: RetainItem)
    ensures
        r.wf(),
        r@ == message_item(id@, role@, content@, t),
{
    let mut metadata: StrMap = StrMap::new();
    metadata.insert("role", owned(role));
    metadata.insert("session_id", owned(id));
    let mut st: String = owned("session:");
    st.append(id);
    let mut rt: String = owned("role:");
    rt.append(role);
    let mut tags: Vec<String> = Vec::new();
    tags.push(owned("type:conversation"));
    tags.push(st);
    tags.push(rt);
    proof {
        assert(views(tags@) =~= seq!["type:conversation"@, "session:"@ + id@, "role:"@ + role@]);
    }
    if same(role, "system") {
        let t: String = owned("type:session");
        proof {
            lemma_views_push(tags@, t);
        }
        tags.push(t);
    }
    let mut context: String = owned("session/");
    context.append(id);
    context.append("/");
    context.append(role);
    RetainItem {
        content: owned(content),
        timestamp: Some(t),
        context: Some(context),
        document_id: Some(owned(id)),
        tags,
        metadata,
        raw_fact_type: Some(FactType::Experience),
    }
}

/// The position of a session in the cache, or its length when it is not
/// there.
pub open spec fn cache_index(cache: Seq<SessionView>, id: Seq<char>) -> int
    decreases cache.len(),
{
    if cache.len() == 0 || cache[0].id == id {
        0
    } else {
        1 + cache_index(cache.skip(1), id)
    }
}

/// The cached session with an identifier.
pub open spec fn cached(cache: Seq<SessionView>, id: Seq<char>) -> Option<SessionView> {
    let i = cache_index(cache, id);
    if i < cache.len() {
        Some(cache[i])
    } else {
        None
    }
}

/// The cache after a session was put in.
pub open spec fn with_session(cache: Seq<SessionView>, s: SessionView) -> Seq<SessionView> {
    let i = cache_index(cache, s.id);
    if i < cache.len() {
        cache.update(i, s)
    } else {
        cache.push(s)
    }
}

/// The cache after a session was taken out.
pub open spec fn without_session(cache: Seq<SessionView>, id: Seq<char>) -> Seq<SessionView> {
    let i = cache_index(cache, id);
    if i < cache.len() {
        cache.remove(i)
    } else {
        cache
    }
}

/// No two cached sessions share an identifier.
pub open spec fn cache_unique(cache: Seq<SessionView>) -> bool {
    forall|i: int, j: int|
        0 <= i < j < cache.len() ==> (#[trigger] cache[i]).id != (#[trigger] cache[j]).id
}

proof fn lemma_cache_index(cache: Seq<SessionView>, id: Seq<char>)
    ensures
        0 <= cache_index(cache, id) <= cache.len(),
        cache_index(cache, id) < cache.len() ==> cache[cache_index(cache, id)].id == id,
        forall|i: int| 0 <= i < cache_index(cache, id) ==> (#[trigger] cache[i]).id != id,
    decreases cache.len(),
{
    if cache.len() > 0 && cache[0].id != id {
        let t = cache.skip(1);
        lemma_cache_index(t, id);
        assert forall|i: int| 0 <= i < cache_index(cache, id) implies (#[trigger] cache[i]).id
            != id by {
            if i > 0 {
                assert(cache[i] == t[i - 1]);
            }
        }
    }
}

proof fn lemma_cache_index_is(cache: Seq<SessionView>, id: Seq<char>, k: int)
    requires
        0 <= k <= cache.len(),
        k < cache.len() ==> cache[k].id == id,
        forall|i: int| 0 <= i < k ==> (#[trigger] cache[i]).id != id,
    ensures
        cache_index(cache, id) == k,
{
    lemma_cache_index(cache, id);
    let d = cache_index(cache, id);
    if d < k {
        assert(cache[d].id != id);
    } else if k < d {
        assert(cache[k].id != id);
    }
}

/// A session that was put into the cache is found there.
pub proof fn law_put_then_get(cache: Seq<SessionView>, s: SessionView)
    requires
        cache_unique(cache),
    ensures
        cached(with_session(cache, s), s.id) == Some(s),
        cache_unique(with_session(cache, s)),
{
    lemma_cache_index(cache, s.id);
    let c = with_session(cache, s);
    let i = cache_index(cache, s.id);
    assert forall|k: int| 0 <= k < i implies (#[trigger] c[k]).id != s.id by {
        assert(c[k] == cache[k]);
    }
    lemma_cache_index_is(c, s.id, i);
}

/// A session that was taken out of the cache is not found there.
pub proof fn law_forget_then_get(cache: Seq<SessionView>, id: Seq<char>)
    requires
        cache_unique(cache),
    ensures
        cached(without_session(cache, id), id) is None,
        cache_unique(without_session(cache, id)),
{
    lemma_cache_index(cache, id);
    let c = without_session(cache, id);
    let i = cache_index(cache, id);
    assert forall|k: int| 0 <= k < c.len() implies (#[trigger] c[k]).id != id by {
        if k < i {
            assert(c[k] == cache[k]);
        } else {
            assert(c[k] == cache[k + 1]);
        }
    }
    lemma_cache_index_is(c, id, c.len() as int);
}

/// The sessions at hand: those loaded or created, and the active one.
#[derive(Debug)]
pub struct SessionManager {
    pub bank_id: String,
    pub sessions: Vec<Session>,
    pub active: Option<Session>,
}

/// The view of an optional session.
pub open spec fn opt_session(o: Option<Session>) -> Option<SessionView> {
    match o {
        Some(s) => Some(s@),
        None => None,
    }
}

impl SessionManager {
    /// The cached sessions.
    pub open spec fn cache(&self) -> Seq<SessionView> {
        session_views(self.sessions@)
    }

    /// The invariant: identifiers are unique.
    pub open spec fn wf(&self) -> bool {
        cache_unique(self.cache())
    }

    pub fn new(bank_id: String) -> (r: SessionManager)
        ensures
            r.wf(),
            r.bank_id == bank_id,
            r.cache() == Seq::<SessionView>::empty(),
            r.active is None,
    {
        let r = SessionManager { bank_id, sessions: Vec::new(), active: None };
        proof {
            assert(r.cache() =~= Seq::empty());
        }
        r
    }

    fn find(&self, id: &str) -> (r: usize)
        ensures
            r == cache_index(self.cache(), id@),
            r <= self.sessions@.len(),
            self.cache().len() == self.sessions@.len(),
    {
        let mut i: usize = 0;
        while i < self.sessions.len()
            invariant_except_break
                i <= self.sessions@.len(),
            invariant
                self.cache().len() == self.sessions@.len(),
                forall|j: int| 0 <= j < i ==> (#[trigger] self.cache()[j]).id != id@,
            ensures
                i <= self.sessions@.len(),
                i < self.sessions@.len() ==> self.cache()[i as int].id == id@,
            decreases self.sessions@.len() - i,
        {
            if same(self.sessions[i].id.as_str(), id) {
                break;
            }
            i = i + 1;
        }
        proof {
            lemma_cache_index_is(self.cache(), id@, i as int);
        }
        i
    }

    /// The cached session with an identifier.
    pub fn get(&self, id: &str) -> (r: Option<Session>)
        ensures
            opt_session(r) == cached(self.cache(), id@),
    {
        let i: usize = self.find(id);
        if i < self.sessions.len() {
            Some(self.sessions[i].clone())
        } else {
            None
        }
    }

    /// Puts a session into the cache.
    pub fn put(&mut self, s: Session)
        requires
            old(self).wf(),
        ensures
            final(self).wf(),
            final(self).cache() == with_session(old(self).cache(), s@),
            final(self).bank_id == old(self).bank_id,
            final(self).active == old(self).active,
    {
        let i: usize = self.find(s.id.as_str());
        let ghost before = self.cache();
        proof {
            lemma_cache_index(before, s@.id);
            law_put_then_get(before, s@);
        }
        if i < self.sessions.len() {
            self.sessions.set(i, s);
            proof {
                assert(self.cache() =~= before.update(i as int, s@));
            }
        } else {
            self.sessions.push(s);
            proof {
                assert(self.cache() =~= before.push(s@));
            }
        }
    }

    /// Creates a session as of now and puts it into the cache.
    pub fn create(&mut self, name: Option<&str>) -> (r: Session)
        requires
            old(self).wf(),
        ensures
            final(self).wf(),
            final(self).cache() == with_session(old(self).cache(), r@),
            r@ == (SessionView {
                id: r@.id,
                name: match name {
                    Some(n) => n@,
                    None => r@.id,
                },
                project_path: None,
                created_at: r@.created_at,
                updated_at: r@.created_at,
                messages: Seq::empty(),
                metadata: Map::empty(),
                status: SessionStatus::Active,
            }),
            r@.id.len() == 36,
            final(self).bank_id == old(self).bank_id,
            final(self).active == old(self).active,
    {
        let s: Session = Session::new(name);
        let c: Session = s.clone();
        self.put(c);
        s
    }

    /// Forgets a deleted session; it is no longer the active one either.
    pub fn forget(&mut self, id: &str)
        requires
            old(self).wf(),
        ensures
            final(self).wf(),
            final(self).cache() == without_session(old(self).cache(), id@),
            opt_session(final(self).active) == (match opt_session(old(self).active) {
                Some(s) => if s.id == id@ {
                    None
                } else {
                    Some(s)
                },
                None => None,
            }),
            final(self).bank_id == old(self).bank_id,
    {
        let i: usize = self.find(id);
        let ghost before = self.cache();
        proof {
            lemma_cache_index(before, id@);
            law_forget_then_get(before, id@);
        }
        if i < self.sessions.len() {
            self.sessions.remove(i);
            proof {
                assert(self.cache() =~= before.remove(i as int));
            }
        }
        let is_active: bool = match &self.active {
            Some(s) => same(s.id.as_str(), id),
            None => false,
        };
        if is_active {
            self.active = None;
        }
    }

    pub fn set_active(&mut self, session: Session)
        ensures
            opt_session(final(self).active) == Some(session@),
            final(self).sessions == old(self).sessions,
            final(self).bank_id == old(self).bank_id,
    {
        self.active = Some(session);
    }

    pub fn get_active(&self) -> (r: Option<Session>)
        ensures
            opt_session(r) == opt_session(self.active),
    {
        match &self.active {
            Some(s) => Some(s.clone()),
            None => None,
        }
    }

    pub fn clear_active(&mut self)
        ensures
            final(self).active is None,
            final(self).sessions == old(self).sessions,
            final(self).bank_id == old(self).bank_id,
    {
        self.active = None;
    }

    /// Adds a message, as of a given time, to a session if it is cached.
    /// Returns the item that stores the message and, where the session is
    /// cached, the document that stores it now.
    pub fn add_message(&mut self, id: &str, role: &str, content: &str, t: Timestamp) -> (r: (
        RetainItem,
        Option<Document>,
    ))
        requires
            old(self).wf(),
        ensures
            final(self).wf(),
            final(self).cache() == (match cached(old(self).cache(), id@) {
                Some(s) => with_session(
                    old(self).cache(),
                    with_message(s, role@, content@, t),
                ),
                None => old(self).cache(),
            }),
            final(self).bank_id == old(self).bank_id,
            final(self).active == old(self).active,
            r.0.wf(),
            r.0@ == message_item(id@, role@, content@, t),
            match cached(old(self).cache(), id@) {
                Some(s) => r.1 matches Some(d) && d@ == session_document(
                    with_message(s, role@, content@, t),
                    old(self).bank_id@,
                ),
                None => r.1 is None,
            },
    {
        let item: RetainItem = item_of_message(id, role, content, t);
        let i: usize = self.find(id);
        proof {
            lemma_cache_index(self.cache(), id@);
        }
        if i < self.sessions.len() {
            let mut s: Session = self.sessions[i].clone();
            s.add_message_at(role, content, t);
            let doc: Document = document_of(&s, self.bank_id.as_str());
            self.put(s);
            (item, Some(doc))
        } else {
            (item, None)
        }
    }

    /// Archives a cached session. Returns the document that stores it now.
    pub fn archive(&mut self, id: &str) -> (r: Option<Document>)
        requires
            old(self).wf(),
        ensures
            final(self).wf(),
            final(self).cache() == (match cached(old(self).cache(), id@) {
                Some(s) => with_session(
                    old(self).cache(),
                    SessionView { status: SessionStatus::Archived, ..s },
                ),
                None => old(self).cache(),
            }),
            final(self).bank_id == old(self).bank_id,
            final(self).active == old(self).active,
            match cached(old(self).cache(), id@) {
                Some(s) => r matches Some(d) && d@ == session_document(
                    SessionView { status: SessionStatus::Archived, ..s },
                    old(self).bank_id@,
                ),
                None => r is None,
            },
    {
        let i: usize = self.find(id);
        proof {
            lemma_cache_index(self.cache(), id@);
        }
        if i < self.sessions.len() {
            let mut s: Session = self.sessions[i].clone();
            s.status = SessionStatus::Archived;
            let doc: Document = document_of(&s, self.bank_id.as_str());
            self.put(s);
            Some(doc)
        } else {
            None
        }
    }

    /// Reads a stored session and puts it into the cache.
    pub fn load(&mut self, doc: &Document, units: &Vec<MemoryUnit>, id: &str) -> (r: Session)
        requires
            old(self).wf(),
            doc.wf(),
            units_wf(units@),
        ensures
            final(self).wf(),
            r@ == loaded_session(doc@, unit_views(units@), id@),
            final(self).cache() == with_session(old(self).cache(), r@),
            final(self).bank_id == old(self).bank_id,
            final(self).active == old(self).active,
    {
        let s: Session = session_from(doc, units, id);
        let c: Session = s.clone();
        self.put(c);
        s
    }

    /// Summarises all stored sessions, and the cached ones that are not
    /// stored yet.
    pub fn list(&self, docs: &Vec<Document>) -> (r: Vec<SessionInfo>)
        requires
            forall|i: int| 0 <= i < docs@.len() ==> (#[trigger] docs@[i]).wf(),
        ensures
            info_views(r@) == all_infos(document_views(docs@), self.cache()),
    {
        let mut infos: Vec<SessionInfo> = Vec::new();
        let ghost goal = document_views(docs@).map_values(|d: DocumentView| info_of_document(d));
        proof {
            assert(info_views(infos@) =~= goal.take(0));
        }
        for i in 0..docs.len()
            invariant
                forall|i: int| 0 <= i < docs@.len() ==> (#[trigger] docs@[i]).wf(),
                goal == document_views(docs@).map_values(|d: DocumentView| info_of_document(d)),
                info_views(infos@) == goal.take(i as int),
        {
            proof {
                assert(docs@[i as int].wf());
            }
            let x: SessionInfo = document_info(&docs[i]);
            let ghost before = infos@;
            infos.push(x);
            proof {
                assert(info_views(infos@) =~= info_views(before).push(x@));
                assert(goal.take(i + 1) =~= goal.take(i as int).push(x@));
            }
        }
        proof {
            assert(goal.take(goal.len() as int) =~= goal);
        }
        let ghost cache = self.cache();
        for i in 0..self.sessions.len()
            invariant
                cache == self.cache(),
                info_views(infos@) == with_cached(goal, cache, i as nat),
        {
            let s: &Session = &self.sessions[i];
            proof {
                assert(cache[i as int] == s@);
            }
            if !has_session(&infos, s.id.as_str()) {
                let x = SessionInfo {
                    id: s.id.clone(),
                    name: s.name.clone(),
                    project_path: copy_opt(&s.project_path),
                    created_at: s.created_at,
                    updated_at: s.updated_at,
                    message_count: s.messages.len(),
                    status: s.status,
                };
                let ghost before = infos@;
                infos.push(x);
                proof {
                    assert(x@ == info_of_session(s@));
                    assert(info_views(infos@) =~= info_views(before).push(x@));
                }
            }
        }
        infos
    }

    /// The request that searches conversations.
    pub fn search_request(&self, query: &str) -> (r: RecallRequest)
        ensures
            r.query@ == query@,
            r.fact_types@ == seq![FactType::Experience],
            views(r.tags@) == seq!["type:conversation"@],
            r.tag_match == TagMatch::Any,
            r.budget == Budget::Mid,
            r.max_tokens == Some(4096usize),
    {
        let mut tags: Vec<String> = Vec::new();
        tags.push(owned("type:conversation"));
        let mut types: Vec<FactType> = Vec::new();
        types.push(FactType::Experience);
        proof {
            assert(views(tags@) =~= seq!["type:conversation"@]);
            assert(types@ =~= seq![FactType::Experience]);
        }
        RecallRequest {
            query: owned(query),
            fact_types: types,
            tags,
            tag_match: TagMatch::Any,
            budget: Budget::Mid,
            max_tokens: Some(4096),
        }
    }

    /// The sessions that the units found belong to, each once, as of a given
    /// time.
    pub fn search(&self, found: &Vec<MemoryUnit>, t: Timestamp) -> (r: Vec<SessionInfo>)
        ensures
            info_views(r@) == found_infos(unit_views(found@), found@.len(), t),
    {
        let ghost uv = unit_views(found@);
        let mut infos: Vec<SessionInfo> = Vec::new();
        proof {
            assert(info_views(infos@) =~= seq![]);
        }
        for i in 0..found.len()
            invariant
                uv == unit_views(found@),
                info_views(infos@) == found_infos(uv, i as nat, t),
        {
            let u: &MemoryUnit = &found[i];
            proof {
                assert(uv[i as int] == u@);
            }
            match &u.document_id {
                Some(id) => {
                    if !has_session(&infos, id.as_str()) {
                        let x = SessionInfo {
                            id: id.clone(),
                            name: id.clone(),
                            project_path: None,
                            created_at: t,
                            updated_at: u.time(),
                            message_count: 0,
                            status: SessionStatus::Active,
                        };
                        let ghost before = infos@;
                        infos.push(x);
                        proof {
                            assert(x@ == found_info(u@, t));
                            assert(info_views(infos@) =~= info_views(before).push(x@));
                        }
                    }
                },
                None => {},
            }
        }
        infos
    }
}

/// A session that is loaded has the messages of its own document, in their
/// order, and no others.
pub proof fn law_messages_are_loaded(us: Seq<Unit>, id: Seq<char>, u: Unit)
    ensures
        u.document_id == Some(id) ==> messages_of(us.push(u), id) == messages_of(us, id).push(
            message_of_unit(u),
        ),
        u.document_id != Some(id) ==> messages_of(us.push(u), id) == messages_of(us, id),
        messages_of(us, id).len() <= us.len(),
        (forall|i: int| 0 <= i < us.len() ==> (#[trigger] us[i]).document_id == Some(id))
            ==> messages_of(us, id) == us.map_values(|u: Unit| message_of_unit(u)),
    decreases us.len(),
{
    assert(us.push(u).drop_last() =~= us);
    if us.len() > 0 {
        let d = us.drop_last();
        law_messages_are_loaded(d, id, us.last());
        if forall|i: int| 0 <= i < us.len() ==> (#[trigger] us[i]).document_id == Some(id) {
            assert forall|i: int| 0 <= i < d.len() implies (#[trigger] d[i]).document_id == Some(
                id,
            ) by {
                assert(d[i] == us[i]);
            }
            assert(us[us.len() - 1].document_id == Some(id));
            assert(messages_of(us, id) =~= us.map_values(|u: Unit| message_of_unit(u)));
        }
    } else {
        assert(messages_of(us, id) =~= us.map_values(|u: Unit| message_of_unit(u)));
    }
}

/// Adding a message keeps those before it, puts the new one last and notes
/// its time; nothing else changes.
pub proof fn law_message_is_added(s: SessionView, role: Seq<char>, content: Seq<char>, t: Timestamp)
    ensures
        ({
            let r = with_message(s, role, content, t);
            &&& r.messages.len() == s.messages.len() + 1
            &&& r.messages.last().role == role
            &&& r.messages.last().content == content
            &&& r.messages.last().timestamp == t
            &&& r.messages.drop_last() == s.messages
            &&& r.updated_at == t
            &&& r.created_at == s.created_at
            &&& r.id == s.id
            &&& r.name == s.name
            &&& r.project_path == s.project_path
            &&& r.status == s.status
        }),
{
}

/// Putting a session into the cache, or taking one out, leaves the others
/// as they were.
pub proof fn law_other_sessions_stay(
    cache: Seq<SessionView>,
    s: SessionView,
    id: Seq<char>,
    other: Seq<char>,
)
    requires
        cache_unique(cache),
    ensures
        other != s.id ==> cached(with_session(cache, s), other) == cached(cache, other),
        other != id ==> cached(without_session(cache, id), other) == cached(cache, other),
{
    lemma_cache_index(cache, s.id);
    lemma_cache_index(cache, id);
    lemma_cache_index(cache, other);
    let k = cache_index(cache, other);
    if other != s.id {
        let w = with_session(cache, s);
        assert forall|i: int| 0 <= i < k implies (#[trigger] w[i]).id != other by {
            assert(cache[i].id != other);
        }
        if k < cache.len() {
            lemma_cache_index_is(w, other, k);
        } else {
            assert forall|i: int| 0 <= i < w.len() implies (#[trigger] w[i]).id != other by {
                if i < cache.len() {
                    assert(cache[i].id != other);
                }
            }
            lemma_cache_index_is(w, other, w.len() as int);
        }
    }
    if other != id {
        let w = without_session(cache, id);
        let j = cache_index(cache, id);
        if j < cache.len() {
            let z = if j < k {
                k - 1
            } else {
                k
            };
            assert forall|i: int| 0 <= i < z implies (#[trigger] w[i]).id != other by {
                if i < j {
                    assert(w[i] == cache[i]);
                } else {
                    assert(w[i] == cache[i + 1]);
                }
            }
            lemma_cache_index_is(w, other, z);
        }
    }
}

proof fn lemma_with_cached(infos: Seq<Info>, cache: Seq<SessionView>, n: nat)
    requires
        n <= cache.len(),
    ensures
        ({
            let r = with_cached(infos, cache, n);
            &&& r.len() >= infos.len()
            &&& forall|i: int| 0 <= i < infos.len() ==> #[trigger] r[i] == infos[i]
            &&& forall|k: int|
                0 <= k < n ==> #[trigger] has_info(r, cache[k].id)
            &&& forall|i: int|
                infos.len() <= i < r.len() ==> !has_info(infos, (#[trigger] r[i]).id)
        }),
    decreases n,
{
    if n > 0 {
        lemma_with_cached(infos, cache, (n - 1) as nat);
        let b = with_cached(infos, cache, (n - 1) as nat);
        let r = with_cached(infos, cache, n);
        let id = cache[n - 1].id;
        if !has_info(b, id) {
            assert(r[r.len() - 1].id == id);
            if has_info(infos, id) {
                let k = choose|k: int| 0 <= k < infos.len() && (#[trigger] infos[k]).id == id;
                assert(b[k] == infos[k]);
            }
        }
        assert forall|k: int| 0 <= k < n implies #[trigger] has_info(r, cache[k].id) by {
            if k < n - 1 {
                assert(has_info(b, cache[k].id));
                let z = choose|z: int| 0 <= z < b.len() && (#[trigger] b[z]).id == cache[k].id;
                assert(r[z] == b[z]);
            }
        }
    }
}

/// A listing of sessions shows every stored one, first and in order, and
/// every cached one; a session that is both is shown as it was stored.
pub proof fn law_every_session_is_listed(docs: Seq<DocumentView>, cache: Seq<SessionView>)
    ensures
        ({
            let r = all_infos(docs, cache);
            &&& r.len() >= docs.len()
            &&& forall|i: int|
                0 <= i < docs.len() ==> (#[trigger] r[i]).id == docs[i].id && r[i]
                    == info_of_document(docs[i])
            &&& forall|k: int| 0 <= k < cache.len() ==> #[trigger] has_info(r, cache[k].id)
            &&& forall|i: int, j: int|
                0 <= i < docs.len() <= j < r.len() ==> (#[trigger] r[i]).id != (
                #[trigger] r[j]).id
        }),
{
    let infos = docs.map_values(|d: DocumentView| info_of_document(d));
    lemma_with_cached(infos, cache, cache.len());
    let r = all_infos(docs, cache);
    assert forall|i: int, j: int| 0 <= i < docs.len() <= j < r.len() implies (#[trigger] r[i]).id
        != (#[trigger] r[j]).id by {
        assert(r[i] == infos[i]);
        assert(!has_info(infos, r[j].id));
    }
}

/// A search shows the session of every unit that was found and belongs to
/// one, each session once.
pub proof fn law_every_session_found_is_shown(us: Seq<Unit>, n: nat, t: Timestamp)
    requires
        n <= us.len(),
    ensures
        ({
            let r = found_infos(us, n, t);
            &&& forall|k: int|
                0 <= k < n && (#[trigger] us[k]).document_id is Some ==> has_info(
                    r,
                    us[k].document_id->0,
                )
            &&& forall|i: int, j: int|
                0 <= i < j < r.len() ==> (#[trigger] r[i]).id != (#[trigger] r[j]).id
            &&& r.len() <= n
        }),
    decreases n,
{
    if n > 0 {
        law_every_session_found_is_shown(us, (n - 1) as nat, t);
        let b = found_infos(us, (n - 1) as nat, t);
        let r = found_infos(us, n, t);
        let u = us[n - 1];
        if u.document_id is Some && !has_info(b, u.document_id->0) {
            assert(r[r.len() - 1].id == u.document_id->0);
            assert forall|i: int, j: int| 0 <= i < j < r.len() implies (#[trigger] r[i]).id != (
            #[trigger] r[j]).id by {
                assert(b[i] == r[i]);
            }
        }
        assert forall|k: int| 0 <= k < n && (#[trigger] us[k]).document_id is Some implies has_info(
            r,
            us[k].document_id->0,
        ) by {
            if k < n - 1 {
                assert(has_info(b, us[k].document_id->0));
                let z = choose|z: int|
                    0 <= z < b.len() && (#[trigger] b[z]).id == us[k].document_id->0;
                assert(r[z] == b[z]);
            }
        }
    }
}

/// A message is stored with its text, role and time, under its session; only
/// a message of the system is marked as opening one.
pub proof fn law_message_is_stored_under_its_session(
    id: Seq<char>,
    role: Seq<char>,
    content: Seq<char>,
    t: Timestamp,
)
    ensures
        ({
            let i = message_item(id, role, content, t);
            &&& i.content == content
            &&& i.timestamp == Some(t)
            &&& i.document_id == Some(id)
            &&& i.raw_fact_type == Some(FactType::Experience)
            &&& i.tags.contains("type:conversation"@)
            &&& i.tags.contains("session:"@ + id)
            &&& i.tags.contains("role:"@ + role)
            &&& role == "system"@ ==> i.tags.contains("type:session"@) && i.tags.len() == 4
            &&& role != "system"@ ==> i.tags.len() == 3
        }),
{
    let g = message_item(id, role, content, t).tags;
    assert(g[0] == "type:conversation"@ && g[1] == "session:"@ + id && g[2] == "role:"@ + role);
    if role == "system"@ {
        assert(g[3] == "type:session"@);
    }
}

} // verus!
