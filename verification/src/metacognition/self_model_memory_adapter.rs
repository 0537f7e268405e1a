//! Persistence of self-knowledge: a proposition is kept as a memory of
//! insight with a reserved tag, and its numbers in the metadata.
use crate::ambient::{millis_of, Timestamp};
use crate::fixed::{
    decimal_text, fmt_decimal, held, law_decimal_round_trip, parse_decimal, parsed_decimal, HALF,
    ONE,
};
use crate::json::{json_string, law_stored_text, quote, read_text, stored_text};
use crate::memory::history::value_of;
use crate::memory::model::{
    type_mark, unit_tags, unit_views, units_wf, Entry, MemoryEntry, MemoryType, MemoryUnit, Unit,
};
use crate::metacognition::self_model_store::{
    identified, law_merged_tags, lemma_prop_index_is, merge_tags, merged_tags, prop_views,
    with_added,
};
use crate::metacognition::self_proposition::{
    make_proposition_id, proposition_id, Proposition, SelfProposition,
};
use crate::text::{
    begins, dec_int, fmt_i64, has_string, law_integer_round_trip, lemma_views_push, owned,
    parse_i32, parse_i64, parsed_int, starts_with, views,
};
use crate::words::distinct;
use vstd::prelude::*;

verus! {

/// The reserved tag of every stored proposition.
pub const SELFPROP_TAG: &'static str = "type:selfprop";

/// The bank of self-knowledge.
pub const DEFAULT_BANK_ID: &'static str = "metacog_self_model";

/// The metadata of a proposition's entry: each value as its JSON text.
pub open spec fn prop_metadata(p: Proposition) -> Map<Seq<char>, Seq<char>> {
    Map::<Seq<char>, Seq<char>>::empty().insert("selfprop_id"@, json_string(p.id)).insert(
        "confidence"@,
        decimal_text(p.confidence as nat),
    ).insert("evidence_count"@, dec_int(p.evidence_count as int)).insert(
        "created_at_ms"@,
        dec_int(p.created_at_ms as int),
    ).insert("updated_at_ms"@, dec_int(p.updated_at_ms as int))
}

/// The entry that keeps a proposition, with the given identifier, as of the
/// given time.
pub open spec fn entry_of_prop(p: Proposition, id: Seq<char>, t: Timestamp) -> Entry {
    Entry {
        id,
        memory_type: MemoryType::Insight,
        content: p.text,
        timestamp: t,
        importance: if p.confidence > ONE {
            ONE
        } else {
            p.confidence
        },
        tags: merged_tags(seq!["type:selfprop"@], p.tags),
        metadata: prop_metadata(p),
        embedding: None,
    }
}

/// Whether a tag is a proposition's own: it marks no type.
pub open spec fn is_own(t: Seq<char>) -> bool {
    !begins(t, "type:"@)
}

/// The tags of a stored proposition that are its own.
pub open spec fn own_tags(tags: Seq<Seq<char>>) -> Seq<Seq<char>> {
    tags.filter(|t: Seq<char>| is_own(t))
}

/// A value of the metadata as a number within some bounds.
pub open spec fn stored_int(
    m: Map<Seq<char>, Seq<char>>,
    key: Seq<char>,
    lo: int,
    hi: int,
) -> Option<int> {
    match value_of(m, key) {
        Some(s) => match parsed_int(s) {
            Some(n) => if lo <= n <= hi {
                Some(n)
            } else {
                None
            },
            None => None,
        },
        None => None,
    }
}

/// The stored confidence; one half where there is none.
pub open spec fn stored_confidence(m: Map<Seq<char>, Seq<char>>) -> u64 {
    match value_of(m, "confidence"@) {
        Some(s) => match parsed_decimal(s) {
            Some(n) => held(n),
            None => HALF,
        },
        None => HALF,
    }
}

/// The proposition that a unit keeps. What is missing or unreadable is
/// filled in: one half, one observation, the unit's own time, and the
/// identifier of the text and tags.
pub open spec fn prop_of_unit(u: Unit) -> Proposition {
    let tags = own_tags(u.tags);
    let created = match stored_int(u.metadata, "created_at_ms"@, i64::MIN as int, i64::MAX as int) {
        Some(n) => n,
        None => millis_of(u.created_at),
    };
    Proposition {
        id: match value_of(u.metadata, "selfprop_id"@) {
            Some(s) => stored_text(s),
            None => proposition_id(u.text, tags),
        },
        text: u.text,
        tags,
        confidence: stored_confidence(u.metadata),
        evidence_count: match stored_int(
            u.metadata,
            "evidence_count"@,
            i32::MIN as int,
            i32::MAX as int,
        ) {
            Some(n) => n as i32,
            None => 1,
        },
        created_at_ms: created as i64,
        updated_at_ms: match stored_int(
            u.metadata,
            "updated_at_ms"@,
            i64::MIN as int,
            i64::MAX as int,
        ) {
            Some(n) => n as i64,
            None => created as i64,
        },
    }
}

/// The propositions that some units keep: those with the reserved tag.
pub open spec fn props_of_units(us: Seq<Unit>) -> Seq<Proposition>
    decreases us.len(),
{
    if us.len() == 0 {
        seq![]
    } else {
        let before = props_of_units(us.drop_last());
        if us.last().tags.contains("type:selfprop"@) {
            before.push(prop_of_unit(us.last()))
        } else {
            before
        }
    }
}

proof fn lemma_prop_keys()
    ensures
        "selfprop_id"@ != "confidence"@,
        "selfprop_id"@ != "evidence_count"@,
        "selfprop_id"@ != "created_at_ms"@,
        "selfprop_id"@ != "updated_at_ms"@,
        "confidence"@ != "evidence_count"@,
        "confidence"@ != "created_at_ms"@,
        "confidence"@ != "updated_at_ms"@,
        "evidence_count"@ != "created_at_ms"@,
        "evidence_count"@ != "updated_at_ms"@,
        "created_at_ms"@ != "updated_at_ms"@,
{
    reveal_strlit("selfprop_id");
    reveal_strlit("confidence");
    reveal_strlit("evidence_count");
    reveal_strlit("created_at_ms");
    reveal_strlit("updated_at_ms");
    assert("selfprop_id"@.len() == 11);
    assert("confidence"@.len() == 10);
    assert("evidence_count"@.len() == 14);
    assert("created_at_ms"@.len() == 13);
    assert("updated_at_ms"@.len() == 13);
    assert("created_at_ms"@[0] != "updated_at_ms"@[0]);
}

proof fn lemma_own_push(s: Seq<Seq<char>>, x: Seq<char>)
    ensures
        own_tags(s.push(x)) == if is_own(x) {
            own_tags(s).push(x)
        } else {
            own_tags(s)
        },
{
    reveal(Seq::filter);
    assert(s.push(x).drop_last() =~= s);
}

proof fn lemma_own_contains(s: Seq<Seq<char>>, x: Seq<char>)
    requires
        is_own(x),
    ensures
        own_tags(s).contains(x) == s.contains(x),
    decreases s.len(),
{
    if s.len() > 0 {
        let d = s.drop_last();
        lemma_own_contains(d, x);
        assert(d.push(s.last()) =~= s);
        lemma_own_push(d, s.last());
        lemma_push_contains(d, s.last(), x);
        lemma_push_contains(own_tags(d), s.last(), x);
    } else {
        reveal(Seq::filter);
    }
}

proof fn lemma_push_contains(s: Seq<Seq<char>>, y: Seq<char>, x: Seq<char>)
    ensures
        s.push(y).contains(x) == (s.contains(x) || x == y),
{
    let t = s.push(y);
    if s.contains(x) {
        let i = choose|i: int| 0 <= i < s.len() && s[i] == x;
        assert(t[i] == x);
    }
    if x == y {
        assert(t[s.len() as int] == x);
    }
    if t.contains(x) {
        let i = choose|i: int| 0 <= i < t.len() && t[i] == x;
        if i < s.len() {
            assert(s[i] == x);
        }
    }
}

proof fn lemma_own_merged(more: Seq<Seq<char>>)
    ensures
        own_tags(merged_tags(seq!["type:selfprop"@], more)) == distinct(own_tags(more)),
    decreases more.len(),
{
    let first = seq!["type:selfprop"@];
    reveal_strlit("type:selfprop");
    reveal_strlit("type:");
    assert("type:selfprop"@.take(5) =~= "type:"@);
    if more.len() == 0 {
        reveal(Seq::filter);
        assert(first =~= Seq::<Seq<char>>::empty().push("type:selfprop"@));
        lemma_own_push(Seq::empty(), "type:selfprop"@);
        assert(own_tags(Seq::empty()) =~= Seq::empty());
        assert(own_tags(more) =~= Seq::empty());
    } else {
        let d = more.drop_last();
        let x = more.last();
        let m = merged_tags(first, d);
        lemma_own_merged(d);
        assert(d.push(x) =~= more);
        lemma_own_push(d, x);
        lemma_own_push(m, x);
        if is_own(x) {
            lemma_own_contains(m, x);
            assert(own_tags(d).push(x).drop_last() =~= own_tags(d));
        }
    }
}

/// Whether a unit keeps the content, the tags and the metadata of a
/// proposition's entry.
pub open spec fn keeps_proposition(u: Unit, p: Proposition) -> bool {
    &&& u.text == p.text
    &&& u.tags == unit_tags(merged_tags(seq!["type:selfprop"@], p.tags), MemoryType::Insight)
    &&& forall|k: Seq<char>|
        prop_metadata(p).dom().contains(k) ==> u.metadata.dom().contains(k) && #[trigger] u.metadata[k]
            == prop_metadata(p)[k]
}

/// A stored proposition reads back as it was, from any unit that keeps it. Of the tags, each comes back once,
/// but for those that mark a type.
pub proof fn law_proposition_round_trip(p: Proposition, u: Unit)
    requires
        keeps_proposition(u, p),
    ensures
        prop_of_unit(u) == (Proposition { tags: distinct(own_tags(p.tags)), ..p }),
{
    lemma_prop_keys();
    let m = prop_metadata(p);
    assert(m.dom().contains("selfprop_id"@) && u.metadata["selfprop_id"@] == m["selfprop_id"@]);
    assert(m.dom().contains("confidence"@) && u.metadata["confidence"@] == m["confidence"@]);
    assert(m.dom().contains("evidence_count"@) && u.metadata["evidence_count"@]
        == m["evidence_count"@]);
    assert(m.dom().contains("created_at_ms"@) && u.metadata["created_at_ms"@] == m["created_at_ms"@]);
    assert(m.dom().contains("updated_at_ms"@) && u.metadata["updated_at_ms"@] == m["updated_at_ms"@]);
    law_decimal_round_trip(p.confidence as nat);
    law_integer_round_trip(p.evidence_count as int);
    law_integer_round_trip(p.created_at_ms as int);
    law_integer_round_trip(p.updated_at_ms as int);
    law_stored_text(p.id);
    lemma_own_merged(p.tags);
    let kept = merged_tags(seq!["type:selfprop"@], p.tags);
    let mark = type_mark(MemoryType::Insight);
    reveal_strlit("type:");
    reveal_strlit("insight");
    assert(mark.take(5) =~= "type:"@);
    lemma_own_push(kept, mark);
}

/// What was stored of a claim and loaded again is the same claim: observing
/// it anew adds to the evidence of the loaded entry.
pub proof fn law_reloaded_claim_collapses(p: Proposition, u: Unit, q: Proposition, t: i64)
    requires
        keeps_proposition(u, p),
        identified(q).id == p.id,
        p.evidence_count < i32::MAX,
    ensures
        with_added(seq![prop_of_unit(u)], q, t).len() == 1,
        with_added(seq![prop_of_unit(u)], q, t)[0].evidence_count == p.evidence_count + 1,
{
    law_proposition_round_trip(p, u);
    lemma_prop_index_is(seq![prop_of_unit(u)], p.id, 0);
}

/// The entry that keeps a proposition, as of now.
pub fn proposition_to_entry(p: &SelfProposition) -> (r: MemoryEntry)
    ensures
        r.wf(),
        r@ == entry_of_prop(p@, r@.id, r@.timestamp),
{
    let mut first: Vec<String> = Vec::new();
    first.push(owned(SELFPROP_TAG));
    proof {
        assert(views(first@) =~= seq!["type:selfprop"@]);
    }
    let tags: Vec<String> = merge_tags(first, &p.tags);
    MemoryEntry::new(MemoryType::Insight, p.text.as_str()).with_importance(p.confidence).with_tags(
        tags,
    ).with_metadata("selfprop_id", quote(p.id.as_str()).as_str()).with_metadata(
        "confidence",
        fmt_decimal(p.confidence).as_str(),
    ).with_metadata("evidence_count", fmt_i64(p.evidence_count as i64).as_str()).with_metadata(
        "created_at_ms",
        fmt_i64(p.created_at_ms).as_str(),
    ).with_metadata("updated_at_ms", fmt_i64(p.updated_at_ms).as_str())
}

/// Reads the proposition that a unit keeps.
pub fn unit_to_proposition(unit: &MemoryUnit) -> (r: SelfProposition)
    requires
        unit.wf(),
        unit.created_at.wf(),
    ensures
        r@ == prop_of_unit(unit@),
{
    let ghost tv = views(unit.tags@);
    let ghost own = |t: Seq<char>| is_own(t);
    let mut tags: Vec<String> = Vec::new();
    proof {
        reveal(Seq::filter);
        assert(views(tags@) =~= tv.take(0).filter(own));
    }
    for i in 0..unit.tags.len()
        invariant
            tv == views(unit.tags@),
            own == (|t: Seq<char>| is_own(t)),
            views(tags@) == tv.take(i as int).filter(own),
    {
        proof {
            reveal(Seq::filter);
            assert(tv.take(i + 1).drop_last() =~= tv.take(i as int));
            assert(tv.take(i + 1).last() == unit.tags@[i as int]@);
        }
        if !starts_with(unit.tags[i].as_str(), "type:") {
            let t: String = unit.tags[i].clone();
            proof {
                lemma_views_push(tags@, t);
            }
            tags.push(t);
        }
    }
    proof {
        assert(tv.take(tv.len() as int) =~= tv);
    }
    let confidence: u64 = match unit.metadata.get("confidence") {
        Some(s) => match parse_decimal(s.as_str()) {
            Some(n) => n,
            None => HALF,
        },
        None => HALF,
    };
    let evidence_count: i32 = match unit.metadata.get("evidence_count") {
        Some(s) => match parse_i32(s.as_str()) {
            Some(n) => n,
            None => 1,
        },
        None => 1,
    };
    let made: Option<i64> = match unit.metadata.get("created_at_ms") {
        Some(s) => parse_i64(s.as_str()),
        None => None,
    };
    let created_at_ms: i64 = match made {
        Some(n) => n,
        None => unit.created_at.millis(),
    };
    let changed: Option<i64> = match unit.metadata.get("updated_at_ms") {
        Some(s) => parse_i64(s.as_str()),
        None => None,
    };
    let updated_at_ms: i64 = match changed {
        Some(n) => n,
        None => created_at_ms,
    };
    let id: String = match unit.metadata.get("selfprop_id") {
        Some(s) => read_text(s.as_str()),
        None => make_proposition_id(unit.text.as_str(), tags.as_slice()),
    };
    SelfProposition {
        id,
        text: unit.text.clone(),
        tags,
        confidence,
        evidence_count,
        created_at_ms,
        updated_at_ms,
    }
}

/// Reads the propositions that some units keep.
pub fn load(units: &Vec<MemoryUnit>) -> (r: Vec<SelfProposition>)
    requires
        units_wf(units@),
        forall|i: int| 0 <= i < units@.len() ==> (#[trigger] units@[i]).created_at.wf(),
    ensures
        prop_views(r@) == props_of_units(unit_views(units@)),
{
    let mut out: Vec<SelfProposition> = Vec::new();
    let ghost uv = unit_views(units@);
    proof {
        assert(prop_views(out@) =~= seq![]);
    }
    for i in 0..units.len()
        invariant
            units_wf(units@),
            forall|i: int| 0 <= i < units@.len() ==> (#[trigger] units@[i]).created_at.wf(),
            uv == unit_views(units@),
            prop_views(out@) == props_of_units(uv.take(i as int)),
    {
        proof {
            assert(units@[i as int].wf());
            assert(units@[i as int].created_at.wf());
            assert(uv.take(i + 1).drop_last() =~= uv.take(i as int));
            assert(uv.take(i + 1).last() == units@[i as int]@);
        }
        if has_string(&units[i].tags, SELFPROP_TAG) {
            let p: SelfProposition = unit_to_proposition(&units[i]);
            let ghost before = out@;
            out.push(p);
            proof {
                assert(prop_views(out@) =~= prop_views(before).push(p@));
            }
        }
    }
    proof {
        assert(uv.take(uv.len() as int) =~= uv);
    }
    out
}

/// Loading gives one claim for each unit with the reserved tag, in their
/// order, and nothing for the others.
pub proof fn law_tagged_units_are_loaded(us: Seq<Unit>, u: Unit)
    ensures
        u.tags.contains("type:selfprop"@) ==> props_of_units(us.push(u)) == props_of_units(us).push(
            prop_of_unit(u),
        ),
        !u.tags.contains("type:selfprop"@) ==> props_of_units(us.push(u)) == props_of_units(us),
        props_of_units(us).len() <= us.len(),
    decreases us.len(),
{
    assert(us.push(u).drop_last() =~= us);
    if us.len() > 0 {
        law_tagged_units_are_loaded(us.drop_last(), us.last());
    }
}

/// A claim is kept under the reserved tag and its own, and is as important
/// as it is certain, up to one.
pub proof fn law_entry_keeps_the_claim(p: Proposition, id: Seq<char>, t: Timestamp, tag: Seq<char>)
    ensures
        ({
            let e = entry_of_prop(p, id, t);
            &&& e.content == p.text
            &&& e.memory_type == MemoryType::Insight
            &&& e.tags.contains("type:selfprop"@)
            &&& p.tags.contains(tag) ==> e.tags.contains(tag)
            &&& p.confidence <= 1_000_000_000 ==> e.importance == p.confidence
            &&& e.importance <= 1_000_000_000
        }),
{
    let base = seq!["type:selfprop"@];
    law_merged_tags(base, p.tags);
    assert(base[0] == "type:selfprop"@);
    assert(base.contains("type:selfprop"@));
}

} // verus!
