//! The retain pipeline.
//!
//! An item becomes one or more units, which are stored with the entities
//! they mention and then linked: units of one document in sequence, similar
//! units, and units that share an entity.
use crate::ambient::{fresh_id, now, Timestamp};
use crate::fixed::ONE;
use crate::memory::llm::{entity_views, fact_views, ExtractedEntity, ExtractedFact, Fact};
use crate::memory::model::{
    fact_of, fresh_unit, link_views, unit_views, FactType, Link, LinkType, MemoryLink, MemoryUnit,
    Unit,
};
use crate::strmap::StrMap;
use crate::text::{
    byte_len, copy_opt, copy_strings, lemma_views_push, opt_view, owned, same, trim, trimmed, views,
};
use crate::words::{distinct, law_distinct_drops_repetitions, WordSet};
use vstd::prelude::*;
use vstd::utf8::*;

verus! {

/// One incoming item.
#[derive(Debug, Clone)]
pub struct RetainItem {
    pub content: String,
    pub timestamp: Option<Timestamp>,
    pub context: Option<String>,
    pub document_id: Option<String>,
    pub tags: Vec<String>,
    pub metadata: StrMap,
    /// Where set, no facts are extracted: the content is stored as one unit
    /// of this type.
    pub raw_fact_type: Option<FactType>,
}

/// An item as a mathematical value.
pub struct Item {
    pub content: Seq<char>,
    pub timestamp: Option<Timestamp>,
    pub context: Option<Seq<char>>,
    pub document_id: Option<Seq<char>>,
    pub tags: Seq<Seq<char>>,
    pub metadata: Map<Seq<char>, Seq<char>>,
    pub raw_fact_type: Option<FactType>,
}

impl View for RetainItem {
    type V = Item;

    open spec fn view(&self) -> Item {
        Item {
            content: self.content@,
            timestamp: self.timestamp,
            context: opt_view(self.context),
            document_id: opt_view(self.document_id),
            tags: views(self.tags@),
            metadata: self.metadata@,
            raw_fact_type: self.raw_fact_type,
        }
    }
}

impl RetainItem {
    /// The invariant: the metadata is a map.
    pub open spec fn wf(&self) -> bool {
        self.metadata.wf()
    }

    /// Whether facts are to be extracted from the content.
    pub fn needs_extraction(&self) -> (r: bool)
        ensures
            r == (self.raw_fact_type is None),
    {
        self.raw_fact_type.is_none()
    }
}

impl Default for RetainItem {
    fn default() -> (r: RetainItem)
        ensures
            r.wf(),
            r@ == (Item {
                content: Seq::empty(),
                timestamp: None,
                context: None,
                document_id: None,
                tags: Seq::empty(),
                metadata: Map::empty(),
                raw_fact_type: None,
            }),
    {
        let r = RetainItem {
            content: String::new(),
            timestamp: None,
            context: None,
            document_id: None,
            tags: Vec::new(),
            metadata: StrMap::new(),
            raw_fact_type: None,
        };
        proof {
            assert(r@.tags =~= Seq::empty());
        }
        r
    }
}

/// An entity that a prepared unit mentions.
#[derive(Debug, Clone)]
pub struct PreparedEntity {
    pub canonical: String,
    pub kind: Option<String>,
}

/// The views of a sequence of prepared entities.
pub open spec fn prepared_entity_views(s: Seq<PreparedEntity>) -> Seq<
    (Seq<char>, Option<Seq<char>>),
> {
    s.map_values(|e: PreparedEntity| (e.canonical@, opt_view(e.kind)))
}

/// A unit that is ready to be stored, with the entities it mentions.
#[derive(Debug, Clone)]
pub struct PreparedUnit {
    pub unit: MemoryUnit,
    pub entities: Vec<PreparedEntity>,
}

/// A prepared unit as a mathematical value.
pub struct Prepared {
    pub unit: Unit,
    pub entities: Seq<(Seq<char>, Option<Seq<char>>)>,
}

impl View for PreparedUnit {
    type V = Prepared;

    open spec fn view(&self) -> Prepared {
        Prepared { unit: self.unit@, entities: prepared_entity_views(self.entities@) }
    }
}

/// The views of a sequence of prepared units.
pub open spec fn prepared_views(s: Seq<PreparedUnit>) -> Seq<Prepared> {
    s.map_values(|p: PreparedUnit| p@)
}

/// Every unit of a list is well formed.
pub open spec fn prepared_wf(s: Seq<PreparedUnit>) -> bool {
    forall|i: int| 0 <= i < s.len() ==> (#[trigger] s[i]).unit.wf()
}

/// The unit of an item with a given text, type, identifier and time of
/// making.
pub open spec fn item_unit(
    bank_id: Seq<char>,
    item: Item,
    text: Seq<char>,
    fact_type: FactType,
    id: Seq<char>,
    t: Timestamp,
) -> Unit {
    Unit {
        document_id: item.document_id,
        context: item.context,
        event_date: item.timestamp,
        occurred_start: item.timestamp,
        mentioned_at: match item.timestamp {
            Some(w) => w,
            None => t,
        },
        tags: item.tags,
        metadata: item.metadata,
        ..fresh_unit(bank_id, text, fact_type, id, t)
    }
}

/// A map with an optional value set.
pub open spec fn with_optional(
    m: Map<Seq<char>, Seq<char>>,
    key: Seq<char>,
    value: Option<Seq<char>>,
) -> Map<Seq<char>, Seq<char>> {
    match value {
        Some(v) => m.insert(key, v),
        None => m,
    }
}

/// The entities of a fact that are kept: their names without the white space
/// at the ends, where anything is left.
pub open spec fn kept_entities(es: Seq<(Seq<char>, Option<Seq<char>>)>) -> Seq<
    (Seq<char>, Option<Seq<char>>),
>
    decreases es.len(),
{
    if es.len() == 0 {
        seq![]
    } else {
        let before = kept_entities(es.drop_last());
        let name = trimmed(es.last().0);
        if name.len() > 0 {
            before.push((name, es.last().1))
        } else {
            before
        }
    }
}

/// The unit of a fact, with its entities. An unknown fact type counts as
/// world; the fact's place stands in for a missing context.
pub open spec fn fact_unit(
    bank_id: Seq<char>,
    item: Item,
    fact: Fact,
    id: Seq<char>,
    t: Timestamp,
) -> Prepared {
    let ft = match fact_of(fact.fact_type) {
        Some(f) => f,
        None => FactType::World,
    };
    Prepared {
        unit: Unit {
            context: match item.context {
                Some(c) => Some(c),
                None => fact.where_,
            },
            metadata: with_optional(
                with_optional(item.metadata, "when"@, fact.when),
                "who"@,
                fact.who,
            ),
            ..item_unit(bank_id, item, fact.text, ft, id, t)
        },
        entities: kept_entities(fact.entities),
    }
}

/// Whether an item is stored whole: as it is raw, or as no facts were
/// extracted.
pub open spec fn stored_whole(item: Item, facts: Option<Seq<Fact>>) -> bool {
    item.raw_fact_type is Some || facts is None || facts->0.len() == 0
}

/// How many units an item becomes.
pub open spec fn prepared_count(item: Item, facts: Option<Seq<Fact>>) -> nat {
    if stored_whole(item, facts) {
        1
    } else {
        facts->0.len()
    }
}

/// The `i`-th unit of an item, with the given identifier and time of making.
pub open spec fn prepared_unit(
    bank_id: Seq<char>,
    item: Item,
    facts: Option<Seq<Fact>>,
    i: int,
    id: Seq<char>,
    t: Timestamp,
) -> Prepared {
    if stored_whole(item, facts) {
        let ft = match item.raw_fact_type {
            Some(f) => f,
            None => FactType::Experience,
        };
        Prepared {
            unit: item_unit(bank_id, item, item.content, ft, id, t),
            entities: Seq::empty(),
        }
    } else {
        fact_unit(bank_id, item, facts->0[i], id, t)
    }
}

/// A unit of an item, with a given identifier and time of making.
fn make_unit(
    bank_id: &str,
    item: &RetainItem,
    text: &str,
    fact_type: FactType,
    id: String,
    t: Timestamp,
) -> (r: MemoryUnit)
    requires
        item.wf(),
    ensures
        r.wf(),
        r@ == item_unit(bank_id@, item@, text@, fact_type, id@, t),
{
    let mut unit: MemoryUnit = MemoryUnit::new_at(bank_id, text, fact_type, id, t);
    unit.document_id = copy_opt(&item.document_id);
    unit.context = copy_opt(&item.context);
    unit.event_date = item.timestamp;
    unit.occurred_start = item.timestamp;
    unit.mentioned_at = match item.timestamp {
        Some(w) => w,
        None => t,
    };
    unit.tags = copy_strings(&item.tags);
    unit.metadata = item.metadata.clone();
    unit
}

fn keep_entities(es: &Vec<ExtractedEntity>) -> (r: Vec<PreparedEntity>)
    ensures
        prepared_entity_views(r@) == kept_entities(entity_views(es@)),
{
    let mut out: Vec<PreparedEntity> = Vec::new();
    let ghost ev = entity_views(es@);
    proof {
        assert(prepared_entity_views(out@) =~= seq![]);
    }
    for i in 0..es.len()
        invariant
            ev == entity_views(es@),
            prepared_entity_views(out@) == kept_entities(ev.take(i as int)),
    {
        let name: String = trim(es[i].text.as_str());
        proof {
            assert(ev.take(i + 1).drop_last() =~= ev.take(i as int));
            assert(ev.take(i + 1).last() == ev[i as int]);
        }
        if name.as_str().unicode_len() > 0 {
            let e = PreparedEntity { canonical: name, kind: copy_opt(&es[i].entity_type) };
            proof {
                assert(prepared_entity_views(out@.push(e)) =~= prepared_entity_views(out@).push(
                    (e.canonical@, opt_view(e.kind)),
                ));
            }
            out.push(e);
        }
    }
    proof {
        assert(ev.take(ev.len() as int) =~= ev);
    }
    out
}

/// Turns one item into units as of now, given the facts that were extracted
/// from it, if that was done and succeeded.
pub fn prepare_item(
    bank_id: &str,
    item: &RetainItem,
    facts: &Option<Vec<ExtractedFact>>,
) -> (r: Vec<PreparedUnit>)
    requires
        item.wf(),
    ensures
        prepared_wf(r@),
        ({
            let fs = match *facts {
                Some(v) => Some(fact_views(v@)),
                None => None,
            };
            &&& r@.len() == prepared_count(item@, fs)
            &&& forall|i: int|
                0 <= i < r@.len() ==> (#[trigger] r@[i])@ == prepared_unit(
                    bank_id@,
                    item@,
                    fs,
                    i,
                    r@[i]@.unit.id,
                    r@[i]@.unit.created_at,
                ) && r@[i]@.unit.id.len() == 36
        }),
{
    let mut out: Vec<PreparedUnit> = Vec::new();
    let whole: Option<FactType> = match item.raw_fact_type {
        Some(ft) => Some(ft),
        None => match facts {
            Some(v) => if v.len() == 0 {
                Some(FactType::Experience)
            } else {
                None
            },
            None => Some(FactType::Experience),
        },
    };
    match whole {
        Some(ft) => {
            let t: Timestamp = now();
            let unit: MemoryUnit = make_unit(
                bank_id,
                item,
                item.content.as_str(),
                ft,
                fresh_id(),
                t,
            );
            let p = PreparedUnit { unit, entities: Vec::new() };
            proof {
                assert(p@.entities =~= Seq::empty());
            }
            out.push(p);
        },
        None => {
            match facts {
                Some(v) => {
                    let ghost fs = Some(fact_views(v@));
                    for i in 0..v.len()
                        invariant
                            item.wf(),
                            item.raw_fact_type is None,
                            v@.len() > 0,
                            fs == Some(fact_views(v@)),
                            out@.len() == i,
                            prepared_wf(out@),
                            forall|k: int|
                                0 <= k < i ==> (#[trigger] out@[k])@ == prepared_unit(
                                    bank_id@,
                                    item@,
                                    fs,
                                    k,
                                    out@[k]@.unit.id,
                                    out@[k]@.unit.created_at,
                                ) && out@[k]@.unit.id.len() == 36,
                    {
                        let t: Timestamp = now();
                        let p: PreparedUnit = prepare_fact(bank_id, item, &v[i], fresh_id(), t);
                        proof {
                            assert(fact_views(v@)[i as int] == v@[i as int]@);
                        }
                        out.push(p);
                    }
                },
                None => {},
            }
        },
    }
    out
}

/// The unit of one fact, with a given identifier and time of making.
pub fn prepare_fact(
    bank_id: &str,
    item: &RetainItem,
    fact: &ExtractedFact,
    id: String,
    t: Timestamp,
) -> (r: PreparedUnit)
    requires
        item.wf(),
    ensures
        r.unit.wf(),
        r@ == fact_unit(bank_id@, item@, fact@, id@, t),
{
    let ft: FactType = match FactType::from_str(fact.fact_type.as_str()) {
        Some(f) => f,
        None => FactType::World,
    };
    let mut unit: MemoryUnit = make_unit(bank_id, item, fact.text.as_str(), ft, id, t);
    if unit.context.is_none() {
        unit.context = copy_opt(&fact.where_);
    }
    match &fact.when {
        Some(w) => {
            unit.metadata.insert("when", w.clone());
        },
        None => {},
    }
    match &fact.who {
        Some(w) => {
            unit.metadata.insert("who", w.clone());
        },
        None => {},
    }
    PreparedUnit { unit, entities: keep_entities(&fact.entities) }
}

// ── What is written ─────────────────────────────────────────────────────

/// The documents that some units belong to, with repetitions.
pub open spec fn document_list(ps: Seq<Prepared>) -> Seq<Seq<char>>
    decreases ps.len(),
{
    if ps.len() == 0 {
        seq![]
    } else {
        match ps.last().unit.document_id {
            Some(d) => document_list(ps.drop_last()).push(d),
            None => document_list(ps.drop_last()),
        }
    }
}

/// The unit ids of some prepared units.
pub open spec fn unit_ids(ps: Seq<Prepared>) -> Seq<Seq<char>> {
    ps.map_values(|p: Prepared| p.unit.id)
}

/// A mention of an entity by a unit: the unit, the entity's name, its kind.
pub open spec fn mentions_of(ps: Seq<Prepared>) -> Seq<
    (Seq<char>, Seq<char>, Option<Seq<char>>),
>
    decreases ps.len(),
{
    if ps.len() == 0 {
        seq![]
    } else {
        let p = ps.last();
        mentions_of(ps.drop_last()) + p.entities.map_values(
            |e: (Seq<char>, Option<Seq<char>>)| (p.unit.id, e.0, e.1),
        )
    }
}

/// A mention of an entity by a unit.
#[derive(Debug, Clone)]
pub struct Mention {
    pub unit_id: String,
    pub canonical: String,
    pub kind: Option<String>,
}

/// The views of a sequence of mentions.
pub open spec fn mention_views(s: Seq<Mention>) -> Seq<
    (Seq<char>, Seq<char>, Option<Seq<char>>),
> {
    s.map_values(|m: Mention| (m.unit_id@, m.canonical@, opt_view(m.kind)))
}

/// What is written for a batch before its links.
#[derive(Debug, Clone)]
pub struct WritePlan {
    /// The documents that have to exist, each once.
    pub documents: Vec<String>,
    pub unit_ids: Vec<String>,
    pub mentions: Vec<Mention>,
}

/// Plans what is written for a batch before its links.
pub fn plan_writes(prepared: &Vec<PreparedUnit>) -> (r: WritePlan)
    ensures
        ({
            let ps = prepared_views(prepared@);
            &&& views(r.documents@) == distinct(document_list(ps))
            &&& views(r.unit_ids@) == unit_ids(ps)
            &&& mention_views(r.mentions@) == mentions_of(ps)
        }),
{
    let ghost ps = prepared_views(prepared@);
    let mut docs: Vec<String> = Vec::new();
    let mut ids: Vec<String> = Vec::new();
    let mut mentions: Vec<Mention> = Vec::new();
    proof {
        assert(views(docs@) =~= seq![]);
        assert(views(ids@) =~= unit_ids(ps.take(0)));
        assert(mention_views(mentions@) =~= seq![]);
    }
    for i in 0..prepared.len()
        invariant
            ps == prepared_views(prepared@),
            views(docs@) == document_list(ps.take(i as int)),
            views(ids@) == unit_ids(ps.take(i as int)),
            mention_views(mentions@) == mentions_of(ps.take(i as int)),
    {
        let p: &PreparedUnit = &prepared[i];
        proof {
            assert(ps.take(i + 1).drop_last() =~= ps.take(i as int));
            assert(ps.take(i + 1).last() == p@);
        }
        match &p.unit.document_id {
            Some(d) => {
                let c: String = d.clone();
                proof {
                    lemma_views_push(docs@, c);
                }
                docs.push(c);
            },
            None => {},
        }
        let id: String = p.unit.id.clone();
        proof {
            lemma_views_push(ids@, id);
            assert(unit_ids(ps.take(i + 1)) =~= unit_ids(ps.take(i as int)).push(p@.unit.id));
        }
        ids.push(id);
        let ghost base = mention_views(mentions@);
        let ghost es = p@.entities;
        let ghost tag = |e: (Seq<char>, Option<Seq<char>>)| (p@.unit.id, e.0, e.1);
        proof {
            assert(base + es.take(0).map_values(tag) =~= base);
        }
        for j in 0..p.entities.len()
            invariant
                es == prepared_entity_views(p.entities@),
                tag == (|e: (Seq<char>, Option<Seq<char>>)| (p@.unit.id, e.0, e.1)),
                mention_views(mentions@) == base + es.take(j as int).map_values(tag),
        {
            let m = Mention {
                unit_id: p.unit.id.clone(),
                canonical: p.entities[j].canonical.clone(),
                kind: copy_opt(&p.entities[j].kind),
            };
            proof {
                assert(mention_views(mentions@.push(m)) =~= mention_views(mentions@).push(
                    (m.unit_id@, m.canonical@, opt_view(m.kind)),
                ));
                assert(es.take(j + 1) =~= es.take(j as int).push(es[j as int]));
                assert(es.take(j + 1).map_values(tag) =~= es.take(j as int).map_values(tag).push(
                    tag(es[j as int]),
                ));
            }
            mentions.push(m);
        }
        proof {
            assert(es.take(es.len() as int) =~= es);
        }
    }
    proof {
        assert(ps.take(ps.len() as int) =~= ps);
    }
    let set: WordSet = WordSet::of(&docs);
    WritePlan { documents: set.items, unit_ids: ids, mentions }
}

// ── Links ───────────────────────────────────────────────────────────────

/// A link between two units.
pub open spec fn link(
    from_id: Seq<char>,
    to_id: Seq<char>,
    link_type: LinkType,
    weight: int,
) -> Link {
    Link { from_id, to_id, link_type, entity_id: None, weight: weight as i64 }
}

/// The links between neighbours of the first `n` units that belong to the
/// same document.
pub open spec fn temporal_links(ps: Seq<Prepared>, n: nat) -> Seq<Link>
    decreases n,
{
    if n < 2 {
        seq![]
    } else {
        let before = temporal_links(ps, (n - 1) as nat);
        let a = ps[n - 2].unit;
        let b = ps[n - 1].unit;
        if a.document_id is Some && a.document_id == b.document_id {
            before.push(link(a.id, b.id, LinkType::Temporal, ONE as int))
        } else {
            before
        }
    }
}

/// The links from the unit `i` to similar ones between `i` and `n`.
pub open spec fn batch_links(
    ps: Seq<Prepared>,
    i: int,
    n: int,
    row: Seq<i64>,
    thresh: i64,
) -> Seq<Link>
    decreases n - i,
{
    if n <= i + 1 {
        seq![]
    } else {
        let before = batch_links(ps, i, n - 1, row, thresh);
        if row[n - 1] >= thresh {
            before.push(
                link(ps[i].unit.id, ps[n - 1].unit.id, LinkType::Semantic, row[n - 1] as int),
            )
        } else {
            before
        }
    }
}

/// The links from a unit to similar ones among the first `n` stored units,
/// other than itself and those without an embedding.
pub open spec fn stored_links(
    id: Seq<char>,
    stored: Seq<Unit>,
    n: nat,
    row: Seq<i64>,
    thresh: i64,
) -> Seq<Link>
    decreases n,
{
    if n == 0 {
        seq![]
    } else {
        let before = stored_links(id, stored, (n - 1) as nat, row, thresh);
        let o = stored[n - 1];
        if o.id != id && o.embedding.len() > 0 && row[n - 1] >= thresh {
            before.push(link(id, o.id, LinkType::Semantic, row[n - 1] as int))
        } else {
            before
        }
    }
}

/// The links of similarity that start at the first `n` units.
pub open spec fn semantic_links(
    ps: Seq<Prepared>,
    n: nat,
    batch: Seq<Seq<i64>>,
    stored: Seq<Unit>,
    sample: Seq<Seq<i64>>,
    thresh: i64,
) -> Seq<Link>
    decreases n,
{
    if n == 0 {
        seq![]
    } else {
        semantic_links(ps, (n - 1) as nat, batch, stored, sample, thresh) + batch_links(
            ps,
            n - 1,
            ps.len() as int,
            batch[n - 1],
            thresh,
        ) + stored_links(ps[n - 1].unit.id, stored, stored.len(), sample[n - 1], thresh)
    }
}

/// The weight of a link through an entity: `0.3` and a hundredth per byte of
/// its name, at most one.
pub open spec fn entity_weight(name: Seq<char>) -> int {
    let w = 300_000_000 + 10_000_000 * encode_utf8(name).len();
    if w < ONE {
        w as int
    } else {
        ONE as int
    }
}

/// Whether a list of entities holds one with the given name.
pub open spec fn names_entity(es: Seq<(Seq<char>, Option<Seq<char>>)>, name: Seq<char>) -> bool {
    exists|k: int| 0 <= k < es.len() && (#[trigger] es[k]).0 == name
}

/// The links between two units through the first `n` entities of the first.
pub open spec fn shared_links(a: Prepared, b: Prepared, n: nat) -> Seq<Link>
    decreases n,
{
    if n == 0 {
        seq![]
    } else {
        let before = shared_links(a, b, (n - 1) as nat);
        let name = a.entities[n - 1].0;
        if names_entity(b.entities, name) {
            before.push(link(a.unit.id, b.unit.id, LinkType::Entity, entity_weight(name)))
        } else {
            before
        }
    }
}

/// The links through entities from the unit `i` to those between `i` and
/// `n`.
pub open spec fn entity_row(ps: Seq<Prepared>, i: int, n: int) -> Seq<Link>
    decreases n - i,
{
    if n <= i + 1 {
        seq![]
    } else {
        entity_row(ps, i, n - 1) + shared_links(ps[i], ps[n - 1], ps[i].entities.len())
    }
}

/// The links through entities that start at the first `n` units.
pub open spec fn entity_links(ps: Seq<Prepared>, n: nat) -> Seq<Link>
    decreases n,
{
    if n == 0 {
        seq![]
    } else {
        entity_links(ps, (n - 1) as nat) + entity_row(ps, n - 1, ps.len() as int)
    }
}

/// All links of a batch: in time, by similarity, through entities.
pub open spec fn planned_links(
    ps: Seq<Prepared>,
    batch: Seq<Seq<i64>>,
    stored: Seq<Unit>,
    sample: Seq<Seq<i64>>,
    thresh: i64,
) -> Seq<Link> {
    temporal_links(ps, ps.len()) + semantic_links(ps, ps.len(), batch, stored, sample, thresh)
        + entity_links(ps, ps.len())
}

/// The rows of a table of similarities.
pub open spec fn rows(m: Seq<Vec<i64>>) -> Seq<Seq<i64>> {
    m.map_values(|r: Vec<i64>| r@)
}

/// What holds of every link of a batch: it starts at a unit of the batch and
/// ends at another unit; one in time has full weight, one of similarity at
/// least that of the threshold, and one through an entity a weight between
/// `0.3` and one.
pub open spec fn sound_link(ps: Seq<Prepared>, thresh: i64, l: Link) -> bool {
    &&& exists|i: int| 0 <= i < ps.len() && (#[trigger] ps[i]).unit.id == l.from_id
    &&& l.from_id != l.to_id
    &&& match l.link_type {
        LinkType::Temporal => l.weight == ONE,
        LinkType::Semantic => l.weight >= thresh,
        LinkType::Entity => 300_000_000 <= l.weight <= ONE,
    }
}

/// Every link of a list is sound.
pub open spec fn sound_links(ps: Seq<Prepared>, thresh: i64, ls: Seq<Link>) -> bool {
    forall|k: int| 0 <= k < ls.len() ==> sound_link(ps, thresh, #[trigger] ls[k])
}

/// No two units of a batch share an identifier.
pub open spec fn distinct_units(ps: Seq<Prepared>) -> bool {
    forall|i: int, j: int|
        0 <= i < j < ps.len() ==> (#[trigger] ps[i]).unit.id != (#[trigger] ps[j]).unit.id
}

proof fn lemma_temporal_sound(ps: Seq<Prepared>, n: nat, thresh: i64)
    requires
        distinct_units(ps),
        n <= ps.len(),
    ensures
        sound_links(ps, thresh, temporal_links(ps, n)),
    decreases n,
{
    if n >= 2 {
        lemma_temporal_sound(ps, (n - 1) as nat, thresh);
        assert(ps[n - 2].unit.id != ps[n - 1].unit.id);
    }
}

proof fn lemma_batch_sound(ps: Seq<Prepared>, i: int, n: int, row: Seq<i64>, thresh: i64)
    requires
        distinct_units(ps),
        0 <= i < ps.len(),
        n <= ps.len(),
    ensures
        sound_links(ps, thresh, batch_links(ps, i, n, row, thresh)),
    decreases n - i,
{
    if n > i + 1 {
        lemma_batch_sound(ps, i, n - 1, row, thresh);
        assert(ps[i].unit.id != ps[n - 1].unit.id);
    }
}

proof fn lemma_stored_sound(
    ps: Seq<Prepared>,
    i: int,
    stored: Seq<Unit>,
    n: nat,
    row: Seq<i64>,
    thresh: i64,
)
    requires
        0 <= i < ps.len(),
    ensures
        sound_links(ps, thresh, stored_links(ps[i].unit.id, stored, n, row, thresh)),
    decreases n,
{
    if n > 0 {
        lemma_stored_sound(ps, i, stored, (n - 1) as nat, row, thresh);
    }
}

proof fn lemma_semantic_sound(
    ps: Seq<Prepared>,
    n: nat,
    batch: Seq<Seq<i64>>,
    stored: Seq<Unit>,
    sample: Seq<Seq<i64>>,
    thresh: i64,
)
    requires
        distinct_units(ps),
        n <= ps.len(),
    ensures
        sound_links(ps, thresh, semantic_links(ps, n, batch, stored, sample, thresh)),
    decreases n,
{
    if n > 0 {
        lemma_semantic_sound(ps, (n - 1) as nat, batch, stored, sample, thresh);
        lemma_batch_sound(ps, n - 1, ps.len() as int, batch[n - 1], thresh);
        lemma_stored_sound(ps, n - 1, stored, stored.len(), sample[n - 1], thresh);
    }
}

proof fn lemma_shared_sound(ps: Seq<Prepared>, i: int, j: int, n: nat, thresh: i64)
    requires
        distinct_units(ps),
        0 <= i < j < ps.len(),
    ensures
        sound_links(ps, thresh, shared_links(ps[i], ps[j], n)),
    decreases n,
{
    if n > 0 {
        lemma_shared_sound(ps, i, j, (n - 1) as nat, thresh);
        assert(ps[i].unit.id != ps[j].unit.id);
    }
}

proof fn lemma_entity_row_sound(ps: Seq<Prepared>, i: int, n: int, thresh: i64)
    requires
        distinct_units(ps),
        0 <= i < ps.len(),
        n <= ps.len(),
    ensures
        sound_links(ps, thresh, entity_row(ps, i, n)),
    decreases n - i,
{
    if n > i + 1 {
        lemma_entity_row_sound(ps, i, n - 1, thresh);
        lemma_shared_sound(ps, i, n - 1, ps[i].entities.len(), thresh);
    }
}

proof fn lemma_entity_sound(ps: Seq<Prepared>, n: nat, thresh: i64)
    requires
        distinct_units(ps),
        n <= ps.len(),
    ensures
        sound_links(ps, thresh, entity_links(ps, n)),
    decreases n,
{
    if n > 0 {
        lemma_entity_sound(ps, (n - 1) as nat, thresh);
        lemma_entity_row_sound(ps, n - 1, ps.len() as int, thresh);
    }
}

/// Every link planned for a batch is sound.
pub proof fn law_links_are_sound(
    ps: Seq<Prepared>,
    batch: Seq<Seq<i64>>,
    stored: Seq<Unit>,
    sample: Seq<Seq<i64>>,
    thresh: i64,
)
    requires
        distinct_units(ps),
    ensures
        sound_links(ps, thresh, planned_links(ps, batch, stored, sample, thresh)),
{
    lemma_temporal_sound(ps, ps.len(), thresh);
    lemma_semantic_sound(ps, ps.len(), batch, stored, sample, thresh);
    lemma_entity_sound(ps, ps.len(), thresh);
}

/// Nothing that is taken in is dropped: every item becomes at least one unit,
/// and where no fact was found in it, the unit holds the whole content.
pub proof fn law_nothing_is_dropped(
    bank_id: Seq<char>,
    item: Item,
    facts: Option<Seq<Fact>>,
    id: Seq<char>,
    t: Timestamp,
)
    ensures
        prepared_count(item, facts) >= 1,
        facts is None || facts->0.len() == 0 || item.raw_fact_type is Some ==> prepared_count(
            item,
            facts,
        ) == 1 && prepared_unit(bank_id, item, facts, 0, id, t).unit.text == item.content,
{
}

fn push_link(out: &mut Vec<MemoryLink>, from: &str, to: &str, link_type: LinkType, weight: i64)
    ensures
        link_views(final(out)@) == link_views(old(out)@).push(
            link(from@, to@, link_type, weight as int),
        ),
{
    let l = MemoryLink {
        from_unit_id: owned(from),
        to_unit_id: owned(to),
        link_type,
        entity_id: None,
        weight,
    };
    proof {
        assert(link_views(out@.push(l)) =~= link_views(out@).push(l@));
    }
    out.push(l);
}

fn same_opt(a: &Option<String>, b: &Option<String>) -> (r: bool)
    ensures
        r == (a is Some && opt_view(*a) == opt_view(*b)),
{
    match (a, b) {
        (Some(x), Some(y)) => same(x.as_str(), y.as_str()),
        _ => false,
    }
}

/// The outcome of a retain.
#[derive(Debug, Clone)]
pub struct RetainResult {
    pub stored_unit_ids: Vec<String>,
    pub linked_entities: usize,
    pub created_links: usize,
}

impl Default for RetainResult {
    fn default() -> (r: RetainResult)
        ensures
            r.stored_unit_ids@.len() == 0,
            r.linked_entities == 0,
            r.created_links == 0,
    {
        RetainResult { stored_unit_ids: Vec::new(), linked_entities: 0, created_links: 0 }
    }
}

/// Plans the links of stored units.
#[derive(Debug, Clone, Copy)]
pub struct RetainEngine {
    /// The similarity from which on two units are linked, in billionths.
    pub semantic_link_threshold: i64,
}

impl RetainEngine {
    pub fn new() -> (r: RetainEngine)
        ensures
            r.semantic_link_threshold == 550_000_000,
    {
        RetainEngine { semantic_link_threshold: 550_000_000 }
    }

    fn link_in_time(&self, prepared: &Vec<PreparedUnit>, out: &mut Vec<MemoryLink>)
        ensures
            link_views(final(out)@) == link_views(old(out)@) + temporal_links(
                prepared_views(prepared@),
                prepared@.len(),
            ),
    {
        let ghost ps = prepared_views(prepared@);
        let ghost base = link_views(out@);
        let n: usize = prepared.len();
        proof {
            assert(base + temporal_links(ps, 0) =~= base);
        }
        for i in 0..n
            invariant
                n == prepared@.len(),
                ps == prepared_views(prepared@),
                link_views(out@) == base + temporal_links(ps, i as nat),
        {
            if i > 0 {
                let a: &MemoryUnit = &prepared[i - 1].unit;
                let b: &MemoryUnit = &prepared[i].unit;
                proof {
                    assert(ps[i - 1].unit == a@);
                    assert(ps[i as int].unit == b@);
                }
                if same_opt(&a.document_id, &b.document_id) {
                    push_link(out, a.id.as_str(), b.id.as_str(), LinkType::Temporal, ONE as i64);
                }
                proof {
                    assert(link_views(out@) =~= base + temporal_links(ps, (i + 1) as nat));
                }
            } else {
                proof {
                    assert(link_views(out@) =~= base + temporal_links(ps, 1));
                }
            }
        }
    }

    fn link_by_similarity(
        &self,
        prepared: &Vec<PreparedUnit>,
        batch: &Vec<Vec<i64>>,
        stored: &Vec<MemoryUnit>,
        sample: &Vec<Vec<i64>>,
        out: &mut Vec<MemoryLink>,
    )
        requires
            batch@.len() == prepared@.len(),
            sample@.len() == prepared@.len(),
            forall|i: int| 0 <= i < batch@.len() ==> (#[trigger] batch@[i])@.len() == prepared@.len(),
            forall|i: int| 0 <= i < sample@.len() ==> (#[trigger] sample@[i])@.len() == stored@.len(),
        ensures
            link_views(final(out)@) == link_views(old(out)@) + semantic_links(
                prepared_views(prepared@),
                prepared@.len(),
                rows(batch@),
                unit_views(stored@),
                rows(sample@),
                self.semantic_link_threshold,
            ),
    {
        let ghost ps = prepared_views(prepared@);
        let ghost sv = unit_views(stored@);
        let ghost bm = rows(batch@);
        let ghost sm = rows(sample@);
        let th: i64 = self.semantic_link_threshold;
        let n: usize = prepared.len();
        let ghost base = link_views(out@);
        proof {
            assert(base + semantic_links(ps, 0, bm, sv, sm, th) =~= base);
        }
        for i in 0..n
            invariant
                n == prepared@.len(),
                n == batch@.len(),
                n == sample@.len(),
                forall|i: int|
                    0 <= i < batch@.len() ==> (#[trigger] batch@[i])@.len() == prepared@.len(),
                forall|i: int|
                    0 <= i < sample@.len() ==> (#[trigger] sample@[i])@.len() == stored@.len(),
                ps == prepared_views(prepared@),
                sv == unit_views(stored@),
                bm == rows(batch@),
                sm == rows(sample@),
                link_views(out@) == base + semantic_links(ps, i as nat, bm, sv, sm, th),
        {
            let a: &MemoryUnit = &prepared[i].unit;
            let ghost mid = link_views(out@);
            let row: &Vec<i64> = &batch[i];
            proof {
                assert(bm[i as int] == row@);
                assert(ps[i as int].unit == a@);
                assert(mid + batch_links(ps, i as int, i + 1, row@, th) =~= mid);
            }
            for j in (i + 1)..n
                invariant
                    i < n,
                    n == prepared@.len(),
                    row@.len() == n,
                    ps == prepared_views(prepared@),
                    ps[i as int].unit == a@,
                    link_views(out@) == mid + batch_links(ps, i as int, j as int, row@, th),
            {
                let sim: i64 = row[j];
                let b: &MemoryUnit = &prepared[j].unit;
                proof {
                    assert(ps[j as int].unit == b@);
                }
                if sim >= th {
                    push_link(out, a.id.as_str(), b.id.as_str(), LinkType::Semantic, sim);
                }
                proof {
                    assert(link_views(out@) =~= mid + batch_links(
                        ps,
                        i as int,
                        j + 1,
                        row@,
                        th,
                    ));
                }
            }
            let ghost late = link_views(out@);
            let others: &Vec<i64> = &sample[i];
            proof {
                assert(sm[i as int] == others@);
                assert(late + stored_links(a@.id, sv, 0, others@, th) =~= late);
            }
            for k in 0..stored.len()
                invariant
                    others@.len() == stored@.len(),
                    sv == unit_views(stored@),
                    link_views(out@) == late + stored_links(a@.id, sv, k as nat, others@, th),
            {
                let o: &MemoryUnit = &stored[k];
                let sim: i64 = others[k];
                proof {
                    assert(sv[k as int] == o@);
                }
                if !same(o.id.as_str(), a.id.as_str()) && o.embedding.len() > 0 && sim >= th {
                    push_link(out, a.id.as_str(), o.id.as_str(), LinkType::Semantic, sim);
                }
                proof {
                    assert(link_views(out@) =~= late + stored_links(
                        a@.id,
                        sv,
                        (k + 1) as nat,
                        others@,
                        th,
                    ));
                }
            }
            proof {
                assert(link_views(out@) =~= base + semantic_links(
                    ps,
                    (i + 1) as nat,
                    bm,
                    sv,
                    sm,
                    th,
                ));
            }
        }
    }

    fn link_by_entity(&self, prepared: &Vec<PreparedUnit>, out: &mut Vec<MemoryLink>)
        ensures
            link_views(final(out)@) == link_views(old(out)@) + entity_links(
                prepared_views(prepared@),
                prepared@.len(),
            ),
    {
        let ghost ps = prepared_views(prepared@);
        let ghost base = link_views(out@);
        let n: usize = prepared.len();
        proof {
            assert(base + entity_links(ps, 0) =~= base);
        }
        for i in 0..n
            invariant
                n == prepared@.len(),
                ps == prepared_views(prepared@),
                link_views(out@) == base + entity_links(ps, i as nat),
        {
            let ghost mid = link_views(out@);
            proof {
                assert(mid + entity_row(ps, i as int, i + 1) =~= mid);
            }
            for j in (i + 1)..n
                invariant
                    i < n,
                    n == prepared@.len(),
                    ps == prepared_views(prepared@),
                    link_views(out@) == mid + entity_row(ps, i as int, j as int),
            {
                let ghost before = link_views(out@);
                proof {
                    assert(ps[i as int] == prepared@[i as int]@);
                    assert(ps[j as int] == prepared@[j as int]@);
                }
                link_shared(&prepared[i], &prepared[j], out);
                proof {
                    assert(link_views(out@) =~= mid + entity_row(ps, i as int, j + 1));
                }
            }
            proof {
                assert(link_views(out@) =~= base + entity_links(ps, (i + 1) as nat));
            }
        }
    }

    /// Plans all links of a batch. `batch` holds the similarity of each unit
    /// to each other of the batch, `sample` that of each unit to each of the
    /// `stored` ones, in billionths.
    pub fn plan_links(
        &self,
        prepared: &Vec<PreparedUnit>,
        batch: &Vec<Vec<i64>>,
        stored: &Vec<MemoryUnit>,
        sample: &Vec<Vec<i64>>,
    ) -> (r: Vec<MemoryLink>)
        requires
            batch@.len() == prepared@.len(),
            sample@.len() == prepared@.len(),
            forall|i: int| 0 <= i < batch@.len() ==> (#[trigger] batch@[i])@.len() == prepared@.len(),
            forall|i: int| 0 <= i < sample@.len() ==> (#[trigger] sample@[i])@.len() == stored@.len(),
        ensures
            link_views(r@) == planned_links(
                prepared_views(prepared@),
                rows(batch@),
                unit_views(stored@),
                rows(sample@),
                self.semantic_link_threshold,
            ),
    {
        let mut out: Vec<MemoryLink> = Vec::new();
        proof {
            assert(link_views(out@) =~= seq![]);
        }
        self.link_in_time(prepared, &mut out);
        self.link_by_similarity(prepared, batch, stored, sample, &mut out);
        self.link_by_entity(prepared, &mut out);
        proof {
            let ps = prepared_views(prepared@);
            assert(link_views(out@) =~= planned_links(
                ps,
                rows(batch@),
                unit_views(stored@),
                rows(sample@),
                self.semantic_link_threshold,
            ));
        }
        out
    }

    /// The outcome of a retain that wrote what was planned.
    pub fn result(&self, writes: WritePlan, links: &Vec<MemoryLink>) -> (r: RetainResult)
        ensures
            views(r.stored_unit_ids@) == views(writes.unit_ids@),
            r.linked_entities == writes.mentions@.len(),
            r.created_links == links@.len(),
    {
        RetainResult {
            stored_unit_ids: writes.unit_ids,
            linked_entities: writes.mentions.len(),
            created_links: links.len(),
        }
    }
}

fn mentions_name(es: &Vec<PreparedEntity>, name: &str) -> (r: bool)
    ensures
        r == names_entity(prepared_entity_views(es@), name@),
{
    let ghost ev = prepared_entity_views(es@);
    for i in 0..es.len()
        invariant
            ev == prepared_entity_views(es@),
            forall|k: int| 0 <= k < i ==> (#[trigger] ev[k]).0 != name@,
    {
        if same(es[i].canonical.as_str(), name) {
            proof {
                assert(ev[i as int].0 == name@);
            }
            return true;
        }
    }
    false
}

fn weight_of(name: &str) -> (r: i64)
    ensures
        r == entity_weight(name@),
{
    let n: usize = byte_len(name);
    if n < 70 {
        300_000_000 + 10_000_000 * (n as i64)
    } else {
        ONE as i64
    }
}

fn link_shared(a: &PreparedUnit, b: &PreparedUnit, out: &mut Vec<MemoryLink>)
    ensures
        link_views(final(out)@) == link_views(old(out)@) + shared_links(
            a@,
            b@,
            a@.entities.len(),
        ),
{
    let ghost base = link_views(out@);
    proof {
        assert(base + shared_links(a@, b@, 0) =~= base);
    }
    for k in 0..a.entities.len()
        invariant
            link_views(out@) == base + shared_links(a@, b@, k as nat),
    {
        let name: &String = &a.entities[k].canonical;
        proof {
            assert(a@.entities[k as int].0 == name@);
        }
        if mentions_name(&b.entities, name.as_str()) {
            push_link(
                out,
                a.unit.id.as_str(),
                b.unit.id.as_str(),
                LinkType::Entity,
                weight_of(name.as_str()),
            );
        }
        proof {
            assert(link_views(out@) =~= base + shared_links(a@, b@, (k + 1) as nat));
        }
    }
}

proof fn lemma_neighbours(ps: Seq<Prepared>, n: nat, i: int)
    requires
        1 <= i < n <= ps.len(),
        ps[i].unit.document_id is Some,
        ps[i - 1].unit.document_id == ps[i].unit.document_id,
    ensures
        temporal_links(ps, n).contains(
            Link {
                from_id: ps[i - 1].unit.id,
                to_id: ps[i].unit.id,
                link_type: LinkType::Temporal,
                entity_id: None,
                weight: 1_000_000_000,
            },
        ),
    decreases n,
{
    let l = link(ps[i - 1].unit.id, ps[i].unit.id, LinkType::Temporal, ONE as int);
    let t = temporal_links(ps, n);
    if i == n - 1 {
        assert(t[t.len() - 1] == l);
    } else {
        lemma_neighbours(ps, (n - 1) as nat, i);
        let before = temporal_links(ps, (n - 1) as nat);
        let k = choose|k: int| 0 <= k < before.len() && before[k] == l;
        assert(t[k] == l);
    }
}

proof fn lemma_in_batch(ps: Seq<Prepared>, i: int, n: int, row: Seq<i64>, thresh: i64, j: int)
    requires
        0 <= i < j < n,
        row[j] >= thresh,
    ensures
        batch_links(ps, i, n, row, thresh).contains(
            link(ps[i].unit.id, ps[j].unit.id, LinkType::Semantic, row[j] as int),
        ),
    decreases n - i,
{
    let l = link(ps[i].unit.id, ps[j].unit.id, LinkType::Semantic, row[j] as int);
    let t = batch_links(ps, i, n, row, thresh);
    if j == n - 1 {
        assert(t[t.len() - 1] == l);
    } else {
        lemma_in_batch(ps, i, n - 1, row, thresh, j);
        let before = batch_links(ps, i, n - 1, row, thresh);
        let k = choose|k: int| 0 <= k < before.len() && before[k] == l;
        assert(t[k] == l);
    }
}

proof fn lemma_in_store(
    id: Seq<char>,
    stored: Seq<Unit>,
    n: nat,
    row: Seq<i64>,
    thresh: i64,
    j: int,
)
    requires
        0 <= j < n,
        stored[j].id != id,
        stored[j].embedding.len() > 0,
        row[j] >= thresh,
    ensures
        stored_links(id, stored, n, row, thresh).contains(
            link(id, stored[j].id, LinkType::Semantic, row[j] as int),
        ),
    decreases n,
{
    let l = link(id, stored[j].id, LinkType::Semantic, row[j] as int);
    let t = stored_links(id, stored, n, row, thresh);
    if j == n - 1 {
        assert(t[t.len() - 1] == l);
    } else {
        lemma_in_store(id, stored, (n - 1) as nat, row, thresh, j);
        let before = stored_links(id, stored, (n - 1) as nat, row, thresh);
        let k = choose|k: int| 0 <= k < before.len() && before[k] == l;
        assert(t[k] == l);
    }
}

proof fn lemma_contained<T>(a: Seq<T>, b: Seq<T>, c: Seq<T>, x: T)
    requires
        a.contains(x) || b.contains(x) || c.contains(x),
    ensures
        (a + b + c).contains(x),
{
    let s = a + b + c;
    if a.contains(x) {
        let k = choose|k: int| 0 <= k < a.len() && a[k] == x;
        assert(s[k] == x);
    } else if b.contains(x) {
        let k = choose|k: int| 0 <= k < b.len() && b[k] == x;
        assert(s[a.len() + k] == x);
    } else {
        let k = choose|k: int| 0 <= k < c.len() && c[k] == x;
        assert(s[a.len() + b.len() + k] == x);
    }
}

proof fn lemma_semantic_from(
    ps: Seq<Prepared>,
    n: nat,
    batch: Seq<Seq<i64>>,
    stored: Seq<Unit>,
    sample: Seq<Seq<i64>>,
    thresh: i64,
    i: int,
    l: Link,
)
    requires
        0 <= i < n <= ps.len(),
        batch_links(ps, i, ps.len() as int, batch[i], thresh).contains(l) || stored_links(
            ps[i].unit.id,
            stored,
            stored.len(),
            sample[i],
            thresh,
        ).contains(l),
    ensures
        semantic_links(ps, n, batch, stored, sample, thresh).contains(l),
    decreases n,
{
    let before = semantic_links(ps, (n - 1) as nat, batch, stored, sample, thresh);
    if i < n - 1 {
        lemma_semantic_from(ps, (n - 1) as nat, batch, stored, sample, thresh, i, l);
    }
    lemma_contained(
        before,
        batch_links(ps, n - 1, ps.len() as int, batch[n - 1], thresh),
        stored_links(ps[n - 1].unit.id, stored, stored.len(), sample[n - 1], thresh),
        l,
    );
}

proof fn lemma_shared(a: Prepared, b: Prepared, n: nat, k: int)
    requires
        0 <= k < n <= a.entities.len(),
        names_entity(b.entities, a.entities[k].0),
    ensures
        shared_links(a, b, n).contains(
            link(a.unit.id, b.unit.id, LinkType::Entity, entity_weight(a.entities[k].0)),
        ),
    decreases n,
{
    let l = link(a.unit.id, b.unit.id, LinkType::Entity, entity_weight(a.entities[k].0));
    let t = shared_links(a, b, n);
    if k == n - 1 {
        assert(t[t.len() - 1] == l);
    } else {
        lemma_shared(a, b, (n - 1) as nat, k);
        let before = shared_links(a, b, (n - 1) as nat);
        let z = choose|z: int| 0 <= z < before.len() && before[z] == l;
        assert(t[z] == l);
    }
}

proof fn lemma_entity_row_from(ps: Seq<Prepared>, i: int, n: int, j: int, l: Link)
    requires
        0 <= i < j < n,
        shared_links(ps[i], ps[j], ps[i].entities.len()).contains(l),
    ensures
        entity_row(ps, i, n).contains(l),
    decreases n - i,
{
    if j < n - 1 {
        lemma_entity_row_from(ps, i, n - 1, j, l);
    }
    let a = entity_row(ps, i, n - 1);
    let b = shared_links(ps[i], ps[n - 1], ps[i].entities.len());
    lemma_contained(a, b, Seq::empty(), l);
    assert(a + b + Seq::empty() =~= a + b);
}

proof fn lemma_entity_from(ps: Seq<Prepared>, n: nat, i: int, l: Link)
    requires
        0 <= i < n <= ps.len(),
        entity_row(ps, i, ps.len() as int).contains(l),
    ensures
        entity_links(ps, n).contains(l),
    decreases n,
{
    if i < n - 1 {
        lemma_entity_from(ps, (n - 1) as nat, i, l);
    }
    let a = entity_links(ps, (n - 1) as nat);
    let b = entity_row(ps, n - 1, ps.len() as int);
    lemma_contained(a, b, Seq::empty(), l);
    assert(a + b + Seq::empty() =~= a + b);
}

/// Neighbours of one document are linked in time, from the earlier to the
/// later, with full weight.
pub proof fn law_neighbours_are_linked(
    ps: Seq<Prepared>,
    batch: Seq<Seq<i64>>,
    stored: Seq<Unit>,
    sample: Seq<Seq<i64>>,
    thresh: i64,
    i: int,
)
    requires
        1 <= i < ps.len(),
        ps[i].unit.document_id is Some,
        ps[i - 1].unit.document_id == ps[i].unit.document_id,
    ensures
        planned_links(ps, batch, stored, sample, thresh).contains(
            Link {
                from_id: ps[i - 1].unit.id,
                to_id: ps[i].unit.id,
                link_type: LinkType::Temporal,
                entity_id: None,
                weight: 1_000_000_000,
            },
        ),
{
    lemma_neighbours(ps, ps.len(), i);
    lemma_contained(
        temporal_links(ps, ps.len()),
        semantic_links(ps, ps.len(), batch, stored, sample, thresh),
        entity_links(ps, ps.len()),
        Link {
            from_id: ps[i - 1].unit.id,
            to_id: ps[i].unit.id,
            link_type: LinkType::Temporal,
            entity_id: None,
            weight: 1_000_000_000,
        },
    );
}

/// Two units of a batch whose similarity reaches the threshold are linked,
/// with their similarity as the weight.
pub proof fn law_similar_units_are_linked(
    ps: Seq<Prepared>,
    batch: Seq<Seq<i64>>,
    stored: Seq<Unit>,
    sample: Seq<Seq<i64>>,
    thresh: i64,
    i: int,
    j: int,
)
    requires
        0 <= i < j < ps.len(),
        batch[i][j] >= thresh,
    ensures
        planned_links(ps, batch, stored, sample, thresh).contains(
            Link {
                from_id: ps[i].unit.id,
                to_id: ps[j].unit.id,
                link_type: LinkType::Semantic,
                entity_id: None,
                weight: batch[i][j],
            },
        ),
{
    let l = link(ps[i].unit.id, ps[j].unit.id, LinkType::Semantic, batch[i][j] as int);
    lemma_in_batch(ps, i, ps.len() as int, batch[i], thresh, j);
    lemma_semantic_from(ps, ps.len(), batch, stored, sample, thresh, i, l);
    lemma_contained(
        temporal_links(ps, ps.len()),
        semantic_links(ps, ps.len(), batch, stored, sample, thresh),
        entity_links(ps, ps.len()),
        l,
    );
}

/// A unit is linked to every other stored one with an embedding whose
/// similarity reaches the threshold, with their similarity as the weight.
pub proof fn law_similar_stored_units_are_linked(
    ps: Seq<Prepared>,
    batch: Seq<Seq<i64>>,
    stored: Seq<Unit>,
    sample: Seq<Seq<i64>>,
    thresh: i64,
    i: int,
    j: int,
)
    requires
        0 <= i < ps.len(),
        0 <= j < stored.len(),
        stored[j].id != ps[i].unit.id,
        stored[j].embedding.len() > 0,
        sample[i][j] >= thresh,
    ensures
        planned_links(ps, batch, stored, sample, thresh).contains(
            Link {
                from_id: ps[i].unit.id,
                to_id: stored[j].id,
                link_type: LinkType::Semantic,
                entity_id: None,
                weight: sample[i][j],
            },
        ),
{
    let l = link(ps[i].unit.id, stored[j].id, LinkType::Semantic, sample[i][j] as int);
    lemma_in_store(ps[i].unit.id, stored, stored.len(), sample[i], thresh, j);
    lemma_semantic_from(ps, ps.len(), batch, stored, sample, thresh, i, l);
    lemma_contained(
        temporal_links(ps, ps.len()),
        semantic_links(ps, ps.len(), batch, stored, sample, thresh),
        entity_links(ps, ps.len()),
        l,
    );
}

/// Two units of a batch that name the same entity are linked through it.
pub proof fn law_shared_entity_links(
    ps: Seq<Prepared>,
    batch: Seq<Seq<i64>>,
    stored: Seq<Unit>,
    sample: Seq<Seq<i64>>,
    thresh: i64,
    i: int,
    j: int,
    k: int,
    m: int,
)
    requires
        0 <= i < j < ps.len(),
        0 <= k < ps[i].entities.len(),
        0 <= m < ps[j].entities.len(),
        ps[i].entities[k].0 == ps[j].entities[m].0,
    ensures
        planned_links(ps, batch, stored, sample, thresh).contains(
            Link {
                from_id: ps[i].unit.id,
                to_id: ps[j].unit.id,
                link_type: LinkType::Entity,
                entity_id: None,
                weight: entity_weight(ps[i].entities[k].0) as i64,
            },
        ),
{
    let name = ps[i].entities[k].0;
    let l = link(ps[i].unit.id, ps[j].unit.id, LinkType::Entity, entity_weight(name));
    assert(ps[j].entities[m].0 == name);
    lemma_shared(ps[i], ps[j], ps[i].entities.len(), k);
    lemma_entity_row_from(ps, i, ps.len() as int, j, l);
    lemma_entity_from(ps, ps.len(), i, l);
    lemma_contained(
        temporal_links(ps, ps.len()),
        semantic_links(ps, ps.len(), batch, stored, sample, thresh),
        entity_links(ps, ps.len()),
        l,
    );
}

/// A longer name weighs no less, and each byte more counts a hundredth up
/// to a weight of one, which a name of seventy bytes has.
pub proof fn law_longer_names_weigh_more(a: Seq<char>, b: Seq<char>)
    requires
        encode_utf8(a).len() <= encode_utf8(b).len(),
    ensures
        300_000_000 <= entity_weight(a) <= entity_weight(b) <= 1_000_000_000,
        encode_utf8(b).len() <= 70 ==> entity_weight(b) - entity_weight(a) == 10_000_000 * (
        encode_utf8(b).len() - encode_utf8(a).len()),
        encode_utf8(b).len() >= 70 ==> entity_weight(b) == 1_000_000_000,
        encode_utf8(a).len() == 0 ==> entity_weight(a) == 300_000_000,
{
}

/// What an item says of its source stands in each of its units: the
/// document, the tags, the time, what is said of it; a unit of a fact holds
/// the text of the fact, and who and when where the fact tells.
pub proof fn law_units_keep_their_source(
    bank_id: Seq<char>,
    item: Item,
    facts: Option<Seq<Fact>>,
    i: int,
    id: Seq<char>,
    t: Timestamp,
)
    ensures
        ({
            let p = prepared_unit(bank_id, item, facts, i, id, t);
            &&& p.unit.bank_id == bank_id
            &&& p.unit.id == id
            &&& p.unit.document_id == item.document_id
            &&& p.unit.tags == item.tags
            &&& p.unit.event_date == item.timestamp
            &&& p.unit.occurred_start == item.timestamp
            &&& item.timestamp matches Some(w) ==> p.unit.mentioned_at == w
            &&& item.timestamp is None ==> p.unit.mentioned_at == t
            &&& item.context is Some ==> p.unit.context == item.context
            &&& item.raw_fact_type matches Some(f) ==> p.unit.fact_type == f && p.unit.text
                == item.content && p.unit.metadata == item.metadata
            &&& item.raw_fact_type is None && facts is None ==> p.unit.fact_type
                == FactType::Experience && p.unit.text == item.content
        }),
        item.raw_fact_type is None && facts is Some && facts->0.len() > 0 ==> {
            let p = prepared_unit(bank_id, item, facts, i, id, t);
            let f = facts->0[i];
            &&& prepared_count(item, facts) == facts->0.len()
            &&& p.unit.text == f.text
            &&& item.context is None ==> p.unit.context == f.where_
            &&& f.when matches Some(w) ==> p.unit.metadata.contains_pair("when"@, w)
            &&& f.who matches Some(w) ==> p.unit.metadata.contains_pair("who"@, w)
            &&& f.when is None && f.who is None ==> p.unit.metadata == item.metadata
            &&& fact_of(f.fact_type) matches Some(k) ==> p.unit.fact_type == k
            &&& fact_of(f.fact_type) is None ==> p.unit.fact_type == FactType::World
        },
{
    reveal_strlit("when");
    reveal_strlit("who");
    assert("when"@.len() != "who"@.len());
}

/// The entities that are kept are those whose names are not blank, trimmed,
/// in their order.
pub proof fn law_blank_entities_are_dropped(
    es: Seq<(Seq<char>, Option<Seq<char>>)>,
    name: Seq<char>,
    kind: Option<Seq<char>>,
)
    ensures
        trimmed(name).len() > 0 ==> kept_entities(es.push((name, kind))) == kept_entities(es).push(
            (trimmed(name), kind),
        ),
        trimmed(name).len() == 0 ==> kept_entities(es.push((name, kind))) == kept_entities(es),
        kept_entities(seq![]).len() == 0,
{
    assert(es.push((name, kind)).drop_last() =~= es);
}

proof fn lemma_document_listed(ps: Seq<Prepared>, i: int)
    requires
        0 <= i < ps.len(),
        ps[i].unit.document_id is Some,
    ensures
        document_list(ps).contains(ps[i].unit.document_id->0),
    decreases ps.len(),
{
    let d = ps[i].unit.document_id->0;
    let l = document_list(ps);
    if i == ps.len() - 1 {
        assert(l[l.len() - 1] == d);
    } else {
        lemma_document_listed(ps.drop_last(), i);
        let before = document_list(ps.drop_last());
        let k = choose|k: int| 0 <= k < before.len() && before[k] == d;
        assert(l[k] == d);
    }
}

proof fn lemma_mention_listed(ps: Seq<Prepared>, i: int, k: int)
    requires
        0 <= i < ps.len(),
        0 <= k < ps[i].entities.len(),
    ensures
        mentions_of(ps).contains((ps[i].unit.id, ps[i].entities[k].0, ps[i].entities[k].1)),
    decreases ps.len(),
{
    let x = (ps[i].unit.id, ps[i].entities[k].0, ps[i].entities[k].1);
    let p = ps.last();
    let a = mentions_of(ps.drop_last());
    let b = p.entities.map_values(
        |e: (Seq<char>, Option<Seq<char>>)| (p.unit.id, e.0, e.1),
    );
    if i == ps.len() - 1 {
        assert(b[k] == x);
    } else {
        lemma_mention_listed(ps.drop_last(), i, k);
    }
    lemma_contained(a, b, Seq::empty(), x);
    assert(a + b + Seq::empty() =~= a + b);
}

/// Every document that a unit of a batch belongs to is written, every unit,
/// and every mention of an entity by a unit.
pub proof fn law_everything_is_written(ps: Seq<Prepared>, i: int)
    requires
        0 <= i < ps.len(),
    ensures
        ps[i].unit.document_id matches Some(d) ==> distinct(document_list(ps)).contains(d),
        unit_ids(ps).len() == ps.len(),
        unit_ids(ps)[i] == ps[i].unit.id,
        forall|k: int|
            0 <= k < ps[i].entities.len() ==> mentions_of(ps).contains(
                (ps[i].unit.id, (#[trigger] ps[i].entities[k]).0, ps[i].entities[k].1),
            ),
{
    if ps[i].unit.document_id is Some {
        let d = ps[i].unit.document_id->0;
        lemma_document_listed(ps, i);
        law_distinct_drops_repetitions(document_list(ps));
    }
    assert forall|k: int| 0 <= k < ps[i].entities.len() implies mentions_of(ps).contains(
        (ps[i].unit.id, (#[trigger] ps[i].entities[k]).0, ps[i].entities[k].1),
    ) by {
        lemma_mention_listed(ps, i, k);
    }
}

} // verus!
