//! The rules of the store: which units a request selects, in which order,
//! and how values are written down.
use crate::ambient::{common_era, from_rfc3339, rfc3339_text, rfc3339_time, to_rfc3339, Timestamp};
use crate::memory::model::{unit_views, units_wf, FactType, MemoryUnit, TagMatch, Unit};
use crate::order::{descending, descending_order, indices, ints};
use crate::text::{
    char_alphanumeric, chars_of, is_alphanumeric, join, joined, lemma_views_push, owned, same,
    string_of, views,
};
use crate::window::{law_best_marked_are_picked, pick, picked};
use crate::words::{fields, split_whitespace};
use vstd::prelude::*;

verus! {

/// Where a store keeps its data.
#[derive(Debug, Clone, Copy, PartialEq, Eq, Structural)]
pub enum StorageBackend {
    Sqlite,
    File,
    Memory,
}

impl Default for StorageBackend {
    fn default() -> (r: StorageBackend)
        ensures
            r == StorageBackend::Sqlite,
    {
        StorageBackend::Sqlite
    }
}

/// Whether a unit's tags hold one of the requested ones.
pub open spec fn shares_tag(unit_tags: Seq<Seq<char>>, query: Seq<Seq<char>>) -> bool {
    exists|i: int| 0 <= i < query.len() && unit_tags.contains(#[trigger] query[i])
}

/// Whether a unit's tags hold all requested ones.
pub open spec fn has_all_tags(unit_tags: Seq<Seq<char>>, query: Seq<Seq<char>>) -> bool {
    forall|i: int| 0 <= i < query.len() ==> unit_tags.contains(#[trigger] query[i])
}

/// Whether a unit's tags satisfy a request. A request without tags selects
/// every unit.
pub open spec fn tags_ok(
    unit_tags: Seq<Seq<char>>,
    query: Seq<Seq<char>>,
    mode: TagMatch,
) -> bool {
    query.len() == 0 || match mode {
        TagMatch::Any => unit_tags.len() == 0 || shares_tag(unit_tags, query),
        TagMatch::All => unit_tags.len() == 0 || has_all_tags(unit_tags, query),
        TagMatch::AnyStrict => unit_tags.len() > 0 && shares_tag(unit_tags, query),
        TagMatch::AllStrict => unit_tags.len() > 0 && has_all_tags(unit_tags, query),
    }
}

/// Whatever a strict mode selects, its permissive counterpart selects too,
/// and whatever needs all tags also satisfies needing one.
pub proof fn law_strict_is_narrower(unit_tags: Seq<Seq<char>>, query: Seq<Seq<char>>)
    ensures
        tags_ok(unit_tags, query, TagMatch::AnyStrict) ==> tags_ok(unit_tags, query, TagMatch::Any),
        tags_ok(unit_tags, query, TagMatch::AllStrict) ==> tags_ok(unit_tags, query, TagMatch::All),
        tags_ok(unit_tags, query, TagMatch::AllStrict) ==> tags_ok(
            unit_tags,
            query,
            TagMatch::AnyStrict,
        ),
        tags_ok(unit_tags, query, TagMatch::All) ==> tags_ok(unit_tags, query, TagMatch::Any),
{
    if query.len() > 0 && has_all_tags(unit_tags, query) {
        assert(unit_tags.contains(query[0]));
    }
}

fn holds(list: &[String], s: &str) -> (r: bool)
    ensures
        r == views(list@).contains(s@),
{
    let n: usize = list.len();
    for i in 0..n
        invariant
            n == list@.len(),
            forall|j: int| 0 <= j < i ==> #[trigger] views(list@)[j] != s@,
    {
        if same(list[i].as_str(), s) {
            proof {
                assert(views(list@)[i as int] == s@);
            }
            return true;
        }
    }
    false
}

/// Whether `unit_tags` satisfies a request for tags.
pub fn tags_match(unit_tags: &[String], query_tags: &[String], mode: TagMatch) -> (r: bool)
    ensures
        r == tags_ok(views(unit_tags@), views(query_tags@), mode),
{
    let n: usize = query_tags.len();
    if n == 0 {
        return true;
    }
    let ghost ut = views(unit_tags@);
    let ghost qt = views(query_tags@);
    let mut any: bool = false;
    let mut all: bool = true;
    for i in 0..n
        invariant
            n == query_tags@.len(),
            ut == views(unit_tags@),
            qt == views(query_tags@),
            any == exists|k: int| 0 <= k < i && ut.contains(#[trigger] qt[k]),
            all == forall|k: int| 0 <= k < i ==> ut.contains(#[trigger] qt[k]),
    {
        if holds(unit_tags, query_tags[i].as_str()) {
            proof {
                assert(ut.contains(qt[i as int]));
            }
            any = true;
        } else {
            proof {
                assert(!ut.contains(qt[i as int]));
            }
            all = false;
        }
    }
    let untagged: bool = unit_tags.len() == 0;
    match mode {
        TagMatch::Any => untagged || any,
        TagMatch::All => untagged || all,
        TagMatch::AnyStrict => !untagged && any,
        TagMatch::AllStrict => !untagged && all,
    }
}

/// Whether a unit is of one of the requested types (any type where none is
/// requested) and satisfies the request for tags.
pub open spec fn eligible(
    u: Unit,
    fact_types: Seq<FactType>,
    tags: Seq<Seq<char>>,
    mode: TagMatch,
) -> bool {
    (fact_types.len() == 0 || fact_types.contains(u.fact_type)) && tags_ok(u.tags, tags, mode)
}

/// The units that a request selects, in order.
pub open spec fn eligible_units(
    units: Seq<Unit>,
    fact_types: Seq<FactType>,
    tags: Seq<Seq<char>>,
    mode: TagMatch,
) -> Seq<Unit> {
    units.filter(|u: Unit| eligible(u, fact_types, tags, mode))
}

/// Which units a request selects.
pub open spec fn eligibility(
    units: Seq<Unit>,
    fact_types: Seq<FactType>,
    tags: Seq<Seq<char>>,
    mode: TagMatch,
) -> Seq<bool> {
    units.map_values(|u: Unit| eligible(u, fact_types, tags, mode))
}

/// Scores as integers.
pub open spec fn score_ints(scores: Seq<i64>) -> Seq<int> {
    scores.map_values(|s: i64| s as int)
}

/// The positions `0..n` in order.
pub open spec fn positions(n: nat) -> Seq<int> {
    Seq::new(n, |i: int| i)
}

fn type_ok(t: FactType, fact_types: &[FactType]) -> (r: bool)
    ensures
        r == (fact_types@.len() == 0 || fact_types@.contains(t)),
{
    let n: usize = fact_types.len();
    if n == 0 {
        return true;
    }
    for i in 0..n
        invariant
            n == fact_types@.len(),
            forall|j: int| 0 <= j < i ==> #[trigger] fact_types@[j] != t,
    {
        if fact_types[i] == t {
            proof {
                assert(fact_types@[i as int] == t);
            }
            return true;
        }
    }
    false
}

fn marks_of(
    units: &Vec<MemoryUnit>,
    fact_types: &[FactType],
    tags: &[String],
    mode: TagMatch,
) -> (r: Vec<bool>)
    ensures
        r@ == eligibility(unit_views(units@), fact_types@, views(tags@), mode),
{
    let mut marks: Vec<bool> = Vec::new();
    let ghost goal = eligibility(unit_views(units@), fact_types@, views(tags@), mode);
    for i in 0..units.len()
        invariant
            goal == eligibility(unit_views(units@), fact_types@, views(tags@), mode),
            marks@ == goal.take(i as int),
    {
        let u: &MemoryUnit = &units[i];
        let ok: bool = type_ok(u.fact_type, fact_types) && tags_match(
            u.tags.as_slice(),
            tags,
            mode,
        );
        marks.push(ok);
        proof {
            assert(marks@ =~= goal.take(i + 1));
        }
    }
    proof {
        assert(goal.take(goal.len() as int) =~= goal);
    }
    marks
}

/// Keeps the units that a request selects.
pub fn keep_eligible(
    units: &Vec<MemoryUnit>,
    fact_types: &[FactType],
    tags: &[String],
    mode: TagMatch,
) -> (r: Vec<MemoryUnit>)
    requires
        units_wf(units@),
    ensures
        units_wf(r@),
        unit_views(r@) == eligible_units(unit_views(units@), fact_types@, views(tags@), mode),
{
    let ghost uv = unit_views(units@);
    let ghost good = |u: Unit| eligible(u, fact_types@, views(tags@), mode);
    let mut out: Vec<MemoryUnit> = Vec::new();
    proof {
        reveal(Seq::filter);
        assert(unit_views(out@) =~= uv.take(0).filter(good));
    }
    for i in 0..units.len()
        invariant
            units_wf(units@),
            units_wf(out@),
            uv == unit_views(units@),
            good == (|u: Unit| eligible(u, fact_types@, views(tags@), mode)),
            unit_views(out@) == uv.take(i as int).filter(good),
    {
        let u: &MemoryUnit = &units[i];
        proof {
            reveal(Seq::filter);
            assert(u.wf());
            assert(uv.take(i + 1).drop_last() =~= uv.take(i as int));
            assert(uv.take(i + 1).last() == u@);
        }
        if type_ok(u.fact_type, fact_types) && tags_match(u.tags.as_slice(), tags, mode) {
            let c: MemoryUnit = u.clone();
            proof {
                assert(unit_views(out@.push(c)) =~= unit_views(out@).push(c@));
            }
            out.push(c);
        }
    }
    proof {
        assert(uv.take(uv.len() as int) =~= uv);
    }
    out
}

/// The positions of the units that a search by score returns: the selected
/// ones, best score first, equal scores in stored order, at most `limit`.
pub open spec fn ranked_positions(
    units: Seq<Unit>,
    scores: Seq<i64>,
    fact_types: Seq<FactType>,
    tags: Seq<Seq<char>>,
    mode: TagMatch,
    limit: nat,
) -> Seq<int> {
    picked(
        descending(score_ints(scores), scores.len()),
        eligibility(units, fact_types, tags, mode),
        limit,
    )
}

/// Ranks stored units by their similarity to a query, in billionths. Gives
/// the positions of the units to return.
pub fn rank_units(
    units: &Vec<MemoryUnit>,
    scores: &Vec<i64>,
    fact_types: &[FactType],
    tags: &[String],
    mode: TagMatch,
    limit: usize,
) -> (r: Vec<usize>)
    requires
        scores@.len() == units@.len(),
    ensures
        indices(r@) == ranked_positions(
            unit_views(units@),
            scores@,
            fact_types@,
            views(tags@),
            mode,
            limit as nat,
        ),
        forall|j: int| 0 <= j < r@.len() ==> #[trigger] r@[j] < units@.len(),
        r@.len() <= limit,
{
    let marks: Vec<bool> = marks_of(units, fact_types, tags, mode);
    let mut keys: Vec<i128> = Vec::new();
    for i in 0..scores.len()
        invariant
            keys@.len() == i,
            forall|j: int| 0 <= j < i ==> #[trigger] keys@[j] == scores@[j],
    {
        keys.push(scores[i] as i128);
    }
    proof {
        assert(ints(keys@) =~= score_ints(scores@));
    }
    let order: Vec<usize> = descending_order(&keys);
    pick(&order, &marks, limit)
}

/// Selects from hits that are already in order. Gives the positions of the
/// hits to return.
pub fn filter_hits(
    units: &Vec<MemoryUnit>,
    fact_types: &[FactType],
    tags: &[String],
    mode: TagMatch,
    limit: usize,
) -> (r: Vec<usize>)
    ensures
        indices(r@) == picked(
            positions(units@.len()),
            eligibility(unit_views(units@), fact_types@, views(tags@), mode),
            limit as nat,
        ),
        forall|j: int| 0 <= j < r@.len() ==> #[trigger] r@[j] < units@.len(),
        r@.len() <= limit,
{
    let marks: Vec<bool> = marks_of(units, fact_types, tags, mode);
    let mut order: Vec<usize> = Vec::new();
    for i in 0..units.len()
        invariant
            order@.len() == i,
            forall|j: int| 0 <= j < i ==> #[trigger] order@[j] == j,
    {
        order.push(i);
    }
    proof {
        assert(indices(order@) =~= positions(units@.len()));
    }
    pick(&order, &marks, limit)
}

/// Whether a text has an alphanumeric character.
pub open spec fn has_alnum(s: Seq<char>) -> bool {
    exists|i: int| 0 <= i < s.len() && char_alphanumeric(#[trigger] s[i])
}

/// The alphanumeric characters and underscores of a text.
pub open spec fn cleaned(s: Seq<char>) -> Seq<char> {
    s.filter(|c: char| char_alphanumeric(c) || c == '_')
}

/// The quoted terms of a search, one per field that has an alphanumeric
/// character.
pub open spec fn query_terms(fs: Seq<Seq<char>>) -> Seq<Seq<char>>
    decreases fs.len(),
{
    if fs.len() == 0 {
        seq![]
    } else {
        let before = query_terms(fs.drop_last());
        if has_alnum(fs.last()) {
            before.push("\""@ + cleaned(fs.last()) + "\""@)
        } else {
            before
        }
    }
}

/// A sequence without elements that equal their predecessor.
pub open spec fn without_repeats(s: Seq<Seq<char>>) -> Seq<Seq<char>>
    decreases s.len(),
{
    if s.len() == 0 {
        seq![]
    } else {
        let d = without_repeats(s.drop_last());
        if s.len() > 1 && s[s.len() - 2] == s.last() {
            d
        } else {
            d.push(s.last())
        }
    }
}

/// The search expression for a text: its terms joined by `OR`, or an empty
/// phrase where there are none.
pub open spec fn fts_query(q: Seq<char>) -> Seq<char> {
    let terms = query_terms(fields(q));
    if terms.len() == 0 {
        "\"\""@
    } else {
        joined(without_repeats(terms), " OR "@)
    }
}

fn clean(w: &str) -> (r: (bool, String))
    ensures
        r.0 == has_alnum(w@),
        r.1@ == cleaned(w@),
{
    let v: Vec<char> = chars_of(w);
    let mut out: Vec<char> = Vec::new();
    let mut any: bool = false;
    let ghost keep = |c: char| char_alphanumeric(c) || c == '_';
    proof {
        reveal(Seq::filter);
        assert(out@ =~= v@.take(0).filter(keep));
    }
    for i in 0..v.len()
        invariant
            keep == (|c: char| char_alphanumeric(c) || c == '_'),
            out@ == v@.take(i as int).filter(keep),
            any == exists|k: int| 0 <= k < i && char_alphanumeric(#[trigger] v@[k]),
    {
        let c: char = v[i];
        proof {
            reveal(Seq::filter);
            assert(v@.take(i + 1).drop_last() =~= v@.take(i as int));
            assert(v@.take(i + 1).last() == c);
        }
        if is_alphanumeric(c) {
            proof {
                assert(char_alphanumeric(v@[i as int]));
            }
            any = true;
            out.push(c);
        } else if c == '_' {
            out.push(c);
        }
    }
    proof {
        assert(v@.take(v@.len() as int) =~= v@);
        assert(out@.subrange(0, out@.len() as int) =~= out@);
    }
    (any, string_of(&out, 0, out.len()))
}

/// Turns a text into a permissive full-text search expression.
pub fn sanitize_fts_query(q: &str) -> (r: String)
    ensures
        r@ == fts_query(q@),
{
    let fs: Vec<String> = split_whitespace(q);
    let ghost fv = views(fs@);
    let mut terms: Vec<String> = Vec::new();
    proof {
        assert(views(terms@) =~= seq![]);
    }
    for i in 0..fs.len()
        invariant
            fv == views(fs@),
            views(terms@) == query_terms(fv.take(i as int)),
    {
        let (any, body) = clean(fs[i].as_str());
        proof {
            assert(fv.take(i + 1).drop_last() =~= fv.take(i as int));
            assert(fv.take(i + 1).last() == fs@[i as int]@);
        }
        if any {
            let mut t: String = owned("\"");
            t.append(body.as_str());
            t.append("\"");
            proof {
                lemma_views_push(terms@, t);
            }
            terms.push(t);
        }
    }
    proof {
        assert(fv.take(fv.len() as int) =~= fv);
    }
    if terms.len() == 0 {
        return owned("\"\"");
    }
    let ghost tv = views(terms@);
    let mut unique: Vec<String> = Vec::new();
    proof {
        assert(views(unique@) =~= seq![]);
    }
    for i in 0..terms.len()
        invariant
            tv == views(terms@),
            views(unique@) == without_repeats(tv.take(i as int)),
    {
        proof {
            assert(tv.take(i + 1).drop_last() =~= tv.take(i as int));
            assert(tv.take(i + 1).last() == terms@[i as int]@);
            if i > 0 {
                assert(tv.take(i + 1)[i - 1] == terms@[i - 1]@);
            }
        }
        if i == 0 || !same(terms[i - 1].as_str(), terms[i].as_str()) {
            let t: String = terms[i].clone();
            proof {
                lemma_views_push(unique@, t);
            }
            unique.push(t);
        }
    }
    proof {
        assert(tv.take(tv.len() as int) =~= tv);
    }
    join(&unique, " OR ")
}

/// The four bytes of a number, least significant first.
pub open spec fn le_bytes(x: u32) -> Seq<u8> {
    seq![
        (x % 256) as u8,
        ((x / 256) % 256) as u8,
        ((x / 65536) % 256) as u8,
        (x / 16777216) as u8,
    ]
}

/// The number with the given four bytes, least significant first.
pub open spec fn le_value(a: u8, b: u8, c: u8, d: u8) -> u32 {
    (a + 256 * b + 65536 * c + 16777216 * d) as u32
}

/// The bytes of an embedding.
pub open spec fn blob_of(v: Seq<u32>) -> Seq<u8>
    decreases v.len(),
{
    if v.len() == 0 {
        seq![]
    } else {
        blob_of(v.drop_last()) + le_bytes(v.last())
    }
}

/// The embedding in a sequence of bytes; up to three bytes at the end that
/// make no component are dropped.
pub open spec fn embedding_of(b: Seq<u8>) -> Seq<u32> {
    Seq::new(
        (b.len() / 4) as nat,
        |i: int| le_value(b[4 * i], b[4 * i + 1], b[4 * i + 2], b[4 * i + 3]),
    )
}

proof fn lemma_blob(v: Seq<u32>)
    ensures
        blob_of(v).len() == 4 * v.len(),
        forall|i: int|
            0 <= i < v.len() ==> le_value(
                blob_of(v)[4 * i],
                blob_of(v)[4 * i + 1],
                blob_of(v)[4 * i + 2],
                blob_of(v)[4 * i + 3],
            ) == #[trigger] v[i],
    decreases v.len(),
{
    if v.len() > 0 {
        let d = v.drop_last();
        lemma_blob(d);
        let b = blob_of(v);
        assert forall|i: int| 0 <= i < v.len() implies le_value(
            b[4 * i],
            b[4 * i + 1],
            b[4 * i + 2],
            b[4 * i + 3],
        ) == #[trigger] v[i] by {
            if i < d.len() {
                assert(d[i] == v[i]);
                assert(b[4 * i] == blob_of(d)[4 * i]);
                assert(b[4 * i + 1] == blob_of(d)[4 * i + 1]);
                assert(b[4 * i + 2] == blob_of(d)[4 * i + 2]);
                assert(b[4 * i + 3] == blob_of(d)[4 * i + 3]);
            }
        }
    }
}

/// Reading back a written embedding gives the same embedding.
pub proof fn law_embedding_round_trip(v: Seq<u32>)
    ensures
        embedding_of(blob_of(v)) == v,
{
    lemma_blob(v);
    assert(embedding_of(blob_of(v)) =~= v);
}

/// Writes an embedding down as bytes.
pub fn embedding_to_blob(v: &Vec<u32>) -> (r: Vec<u8>)
    ensures
        r@ == blob_of(v@),
{
    let mut out: Vec<u8> = Vec::new();
    for i in 0..v.len()
        invariant
            out@ == blob_of(v@.take(i as int)),
    {
        let x: u32 = v[i];
        let ghost before = out@;
        out.push((x % 256) as u8);
        out.push(((x / 256) % 256) as u8);
        out.push(((x / 65536) % 256) as u8);
        out.push((x / 16777216) as u8);
        proof {
            assert(v@.take(i + 1).drop_last() =~= v@.take(i as int));
            assert(out@ =~= before + le_bytes(x));
        }
    }
    proof {
        assert(v@.take(v@.len() as int) =~= v@);
    }
    out
}

/// Reads an embedding from bytes.
pub fn blob_to_embedding(b: &Vec<u8>) -> (r: Vec<u32>)
    ensures
        r@ == embedding_of(b@),
{
    let len: usize = b.len();
    let n: usize = len / 4;
    let mut out: Vec<u32> = Vec::new();
    for i in 0..n
        invariant
            len == b@.len(),
            n == len / 4,
            out@ == embedding_of(b@).take(i as int),
    {
        let x: u32 = b[4 * i] as u32 + 256 * (b[4 * i + 1] as u32) + 65536 * (b[4 * i + 2] as u32)
            + 16777216 * (b[4 * i + 3] as u32);
        out.push(x);
        proof {
            assert(out@ =~= embedding_of(b@).take(i + 1));
        }
    }
    proof {
        assert(embedding_of(b@).take(n as int) =~= embedding_of(b@));
    }
    out
}

/// Reads a stored point in time; an absent or unreadable one is none.
pub fn parse_opt_dt(s: &Option<String>) -> (r: Option<Timestamp>)
    ensures
        r == match *s {
            Some(t) => rfc3339_time(t@),
            None => None,
        },
{
    match s {
        Some(t) => from_rfc3339(t.as_str()),
        None => None,
    }
}

/// Writes a point in time as it is stored. One in the years 0 to 9999 reads
/// back as it was.
pub fn stored_dt(t: Timestamp) -> (r: String)
    ensures
        r@ == rfc3339_text(t),
        common_era(t) ==> rfc3339_time(r@) == Some(t),
{
    to_rfc3339(t)
}

/// A request without tags selects everything. One with tags selects the
/// units without any in the two permissive modes only; of the others it
/// selects those that share a tag with it, or, where all are needed, those
/// that have every one of its tags.
pub proof fn law_tag_modes(unit_tags: Seq<Seq<char>>, query: Seq<Seq<char>>)
    ensures
        query.len() == 0 ==> tags_ok(unit_tags, query, TagMatch::Any) && tags_ok(
            unit_tags,
            query,
            TagMatch::All,
        ) && tags_ok(unit_tags, query, TagMatch::AnyStrict) && tags_ok(
            unit_tags,
            query,
            TagMatch::AllStrict,
        ),
        query.len() > 0 && unit_tags.len() == 0 ==> tags_ok(unit_tags, query, TagMatch::Any)
            && tags_ok(unit_tags, query, TagMatch::All) && !tags_ok(
            unit_tags,
            query,
            TagMatch::AnyStrict,
        ) && !tags_ok(unit_tags, query, TagMatch::AllStrict),
        query.len() > 0 && unit_tags.len() > 0 ==> {
            let some = exists|t: Seq<char>| unit_tags.contains(t) && #[trigger] query.contains(t);
            let all = forall|t: Seq<char>| #[trigger] query.contains(t) ==> unit_tags.contains(t);
            &&& tags_ok(unit_tags, query, TagMatch::Any) == some
            &&& tags_ok(unit_tags, query, TagMatch::AnyStrict) == some
            &&& tags_ok(unit_tags, query, TagMatch::All) == all
            &&& tags_ok(unit_tags, query, TagMatch::AllStrict) == all
        },
{
    assert forall|i: int| 0 <= i < query.len() implies query.contains(#[trigger] query[i]) by {}
    if exists|t: Seq<char>| unit_tags.contains(t) && #[trigger] query.contains(t) {
        let t = choose|t: Seq<char>| unit_tags.contains(t) && #[trigger] query.contains(t);
        let i = choose|i: int| 0 <= i < query.len() && query[i] == t;
        assert(unit_tags.contains(query[i]));
    }
    if shares_tag(unit_tags, query) {
        let i = choose|i: int| 0 <= i < query.len() && unit_tags.contains(#[trigger] query[i]);
        assert(query.contains(query[i]));
    }
    if has_all_tags(unit_tags, query) {
        assert forall|t: Seq<char>| #[trigger] query.contains(t) implies unit_tags.contains(t) by {
            let i = choose|i: int| 0 <= i < query.len() && query[i] == t;
            assert(unit_tags.contains(query[i]));
        }
    }
}

/// A request for types selects units of those types only, and one for none
/// selects all types; of these, those whose tags it asks for.
pub proof fn law_selection(u: Unit, types: Seq<FactType>, tags: Seq<Seq<char>>, mode: TagMatch)
    ensures
        types.len() == 0 ==> eligible(u, types, tags, mode) == tags_ok(u.tags, tags, mode),
        types.contains(u.fact_type) ==> eligible(u, types, tags, mode) == tags_ok(
            u.tags,
            tags,
            mode,
        ),
        types.len() > 0 && !types.contains(u.fact_type) ==> !eligible(u, types, tags, mode),
        eligible(u, seq![], seq![], mode),
{
}

/// A search by score returns what the request selects and nothing else, the
/// best first, and never leaves out a better one for a worse one.
pub proof fn law_search_returns_the_best(
    units: Seq<Unit>,
    scores: Seq<i64>,
    types: Seq<FactType>,
    tags: Seq<Seq<char>>,
    mode: TagMatch,
    limit: nat,
)
    requires
        scores.len() == units.len(),
    ensures
        ({
            let r = ranked_positions(units, scores, types, tags, mode, limit);
            &&& r.len() <= limit
            &&& forall|i: int|
                0 <= i < r.len() ==> 0 <= #[trigger] r[i] < units.len() && eligible(
                    units[r[i]],
                    types,
                    tags,
                    mode,
                )
            &&& forall|i: int, j: int|
                0 <= i < j < r.len() ==> scores[#[trigger] r[i]] >= scores[#[trigger] r[j]]
            &&& forall|m: int, i: int|
                0 <= m < units.len() && eligible(units[m], types, tags, mode)
                    && !#[trigger] r.contains(m) && 0 <= i < r.len() ==> scores[m]
                    <= scores[#[trigger] r[i]]
            &&& r.len() < limit ==> forall|m: int|
                0 <= m < units.len() && eligible(units[m], types, tags, mode)
                    ==> #[trigger] r.contains(m)
        }),
{
    let keys = score_ints(scores);
    let marks = eligibility(units, types, tags, mode);
    law_best_marked_are_picked(keys, marks, limit);
    let r = ranked_positions(units, scores, types, tags, mode, limit);
    assert forall|i: int, j: int| 0 <= i < j < r.len() implies scores[#[trigger] r[i]]
        >= scores[#[trigger] r[j]] by {
        assert(keys[r[i]] >= keys[r[j]]);
    }
    assert forall|m: int, i: int|
        0 <= m < units.len() && eligible(units[m], types, tags, mode) && !#[trigger] r.contains(m)
            && 0 <= i < r.len() implies scores[m] <= scores[#[trigger] r[i]] by {
        assert(marks[m]);
        assert(keys[m] <= keys[r[i]]);
    }
    if r.len() < limit {
        assert forall|m: int|
            0 <= m < units.len() && eligible(units[m], types, tags, mode) implies #[trigger] r.contains(
            m,
        ) by {
            assert(marks[m]);
        }
    }
}

/// What the request selects of some units is all of what it selects, in
/// their order, and nothing else.
pub proof fn law_selected_units(
    units: Seq<Unit>,
    types: Seq<FactType>,
    tags: Seq<Seq<char>>,
    mode: TagMatch,
    u: Unit,
)
    ensures
        eligible_units(units, types, tags, mode).contains(u) <==> units.contains(u) && eligible(
            u,
            types,
            tags,
            mode,
        ),
{
    let good = |u: Unit| eligible(u, types, tags, mode);
    let f = eligible_units(units, types, tags, mode);
    if f.contains(u) {
        units.lemma_filter_contains_rev(good, u);
        let i = choose|i: int| 0 <= i < f.len() && f[i] == u;
        units.lemma_filter_pred(good, i);
    }
    if units.contains(u) && eligible(u, types, tags, mode) {
        let i = choose|i: int| 0 <= i < units.len() && units[i] == u;
        units.lemma_filter_contains(good, i);
    }
}

/// A cleaned word has letters, digits and underscores only, all of them, and
/// a word of nothing else stays as it is.
pub proof fn law_cleaned_words_are_plain(s: Seq<char>)
    ensures
        forall|i: int|
            0 <= i < cleaned(s).len() ==> char_alphanumeric(#[trigger] cleaned(s)[i]) || cleaned(
                s,
            )[i] == '_',
        (forall|i: int| 0 <= i < s.len() ==> char_alphanumeric(#[trigger] s[i]) || s[i] == '_')
            ==> cleaned(s) == s,
    decreases s.len(),
{
    reveal(Seq::filter);
    if s.len() > 0 {
        let d = s.drop_last();
        law_cleaned_words_are_plain(d);
        let c = cleaned(d);
        assert forall|i: int| 0 <= i < cleaned(s).len() implies char_alphanumeric(
            #[trigger] cleaned(s)[i],
        ) || cleaned(s)[i] == '_' by {
            if i < c.len() {
                assert(cleaned(s)[i] == c[i]);
            }
        }
        if forall|i: int| 0 <= i < s.len() ==> char_alphanumeric(#[trigger] s[i]) || s[i] == '_' {
            assert forall|i: int| 0 <= i < d.len() implies char_alphanumeric(#[trigger] d[i])
                || d[i] == '_' by {
                assert(d[i] == s[i]);
            }
            let l = s[s.len() - 1];
            assert(char_alphanumeric(l) || l == '_');
            assert(d.push(s.last()) =~= s);
        }
    }
    if forall|i: int| 0 <= i < s.len() ==> char_alphanumeric(#[trigger] s[i]) || s[i] == '_' {
        assert(cleaned(s) =~= s);
    }
}

/// The search for words has one quoted term for each that holds a letter or
/// a digit, in their order, and no other.
pub proof fn law_every_word_is_searched(fs: Seq<Seq<char>>, f: Seq<char>)
    ensures
        has_alnum(f) ==> query_terms(fs.push(f)) == query_terms(fs).push(
            "\""@ + cleaned(f) + "\""@,
        ),
        !has_alnum(f) ==> query_terms(fs.push(f)) == query_terms(fs),
        query_terms(seq![]).len() == 0,
{
    assert(fs.push(f).drop_last() =~= fs);
}

/// The search expression joins the terms by `OR`, without one that stands
/// right behind its like, and is an empty phrase where there are none.
pub proof fn law_search_expression(q: Seq<char>)
    ensures
        query_terms(fields(q)).len() == 0 ==> fts_query(q) == "\"\""@,
        query_terms(fields(q)).len() == 1 ==> fts_query(q) == query_terms(fields(q))[0],
        query_terms(fields(q)).len() == 2 ==> {
            let t = query_terms(fields(q));
            &&& t[0] == t[1] ==> fts_query(q) == t[0]
            &&& t[0] != t[1] ==> fts_query(q) == t[0] + " OR "@ + t[1]
        },
        forall|i: int|
            0 <= i < without_repeats(query_terms(fields(q))).len() ==> query_terms(
                fields(q),
            ).contains(#[trigger] without_repeats(query_terms(fields(q)))[i]),
{
    let t = query_terms(fields(q));
    lemma_without_repeats(t);
    if t.len() == 1 {
        assert(t.drop_last() =~= Seq::<Seq<char>>::empty());
        assert(without_repeats(t.drop_last()).len() == 0);
        assert(without_repeats(t) =~= seq![t[0]]);
    }
    if t.len() == 2 {
        let d = t.drop_last();
        assert(d =~= seq![t[0]]);
        assert(d.drop_last() =~= Seq::<Seq<char>>::empty());
        assert(without_repeats(d.drop_last()).len() == 0);
        assert(without_repeats(d) =~= seq![t[0]]);
        if t[0] != t[1] {
            let w = without_repeats(t);
            assert(w =~= seq![t[0], t[1]]);
            assert(w.drop_last() =~= seq![t[0]]);
            assert(joined(w.drop_last(), " OR "@) == t[0]);
        }
    }
}

proof fn lemma_without_repeats(s: Seq<Seq<char>>)
    ensures
        forall|i: int|
            0 <= i < without_repeats(s).len() ==> s.contains(#[trigger] without_repeats(s)[i]),
    decreases s.len(),
{
    if s.len() > 0 {
        let d = s.drop_last();
        lemma_without_repeats(d);
        let r = without_repeats(s);
        let w = without_repeats(d);
        assert forall|i: int| 0 <= i < r.len() implies s.contains(#[trigger] r[i]) by {
            if i < w.len() {
                assert(r[i] == w[i]);
                assert(d.contains(w[i]));
                let k = choose|k: int| 0 <= k < d.len() && d[k] == w[i];
                assert(s[k] == r[i]);
            } else {
                assert(s[s.len() - 1] == r[i]);
            }
        }
    }
}

} // verus!
