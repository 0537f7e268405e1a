//! Consolidation: memories that have not been processed yet are turned into
//! observations. A language model decides what to create, update and delete;
//! without one, similar memories are grouped and each group becomes an
//! observation.
use crate::ambient::{fresh_id, now, rfc3339_text, to_rfc3339, Timestamp};
use crate::memory::llm::{
    consolidated_views, pair_views, Consolidated, ConsolidatedObservation, ConsolidationDecision,
};
use crate::memory::model::{
    fresh_unit, revision_views, unit_views, units_wf, Budget, FactType, MemoryUnit,
    ObservationHistoryEntry, Revision, TagMatch, Unit,
};
use crate::memory::recall::RecallRequest;
use crate::metacognition::self_model_store::{law_merged_tags, merge_tags, merged_tags};
use crate::order::{indices, lex_less};
use crate::text::{
    copy_opt, copy_strings, dec, fmt_u64, has_string, join, joined, lemma_views_push, owned, same,
    views,
};
use crate::window::at_most;
use vstd::prelude::*;

verus! {

#[derive(Debug, Clone)]
pub struct ConsolidationConfig {
    pub max_memories: usize,
    /// In billionths.
    pub importance_threshold: u64,
    pub age_threshold_hours: u64,
    pub consolidation_interval_hours: u64,
    pub enable_auto_consolidation: bool,
    /// The similarity from which on memories are grouped, in billionths.
    pub fallback_similarity_threshold: i64,
    /// The agent's mission, for the model's attention.
    pub mission: Option<String>,
}

impl Default for ConsolidationConfig {
    fn default() -> (r: ConsolidationConfig)
        ensures
            r.max_memories == 10000,
            r.importance_threshold == 300_000_000,
            r.age_threshold_hours == 24,
            r.consolidation_interval_hours == 6,
            r.enable_auto_consolidation,
            r.fallback_similarity_threshold == 700_000_000,
            r.mission is None,
    {
        ConsolidationConfig {
            max_memories: 10000,
            importance_threshold: 300_000_000,
            age_threshold_hours: 24,
            consolidation_interval_hours: 6,
            enable_auto_consolidation: true,
            fallback_similarity_threshold: 700_000_000,
            mission: None,
        }
    }
}

#[derive(Debug, Clone, Copy)]
pub struct ConsolidationResult {
    pub memories_before: usize,
    pub memories_after: usize,
    pub observations_created: usize,
    pub observations_updated: usize,
    pub observations_deleted: usize,
    pub duration_ms: u64,
    pub timestamp: Timestamp,
    pub used_llm: bool,
}

/// Whether a unit still waits to be consolidated.
pub open spec fn pending(u: Unit) -> bool {
    !u.metadata.dom().contains("consolidated_at"@)
}

/// The units that still wait to be consolidated.
pub open spec fn pending_units(us: Seq<Unit>) -> Seq<Unit> {
    us.filter(|u: Unit| pending(u))
}

/// What a consolidation takes up of the units that it sees.
pub open spec fn sources_of(world: Seq<Unit>, experience: Seq<Unit>) -> Seq<Unit> {
    pending_units(world) + pending_units(experience)
}

/// The result of a run that sees nothing to consolidate; none where it sees
/// something.
pub open spec fn idle_result(
    world: Seq<Unit>,
    experience: Seq<Unit>,
    memories: usize,
    duration_ms: u64,
    t: Timestamp,
) -> Option<ConsolidationResult> {
    if sources_of(world, experience).len() == 0 {
        Some(
            ConsolidationResult {
                memories_before: memories,
                memories_after: memories,
                observations_created: 0,
                observations_updated: 0,
                observations_deleted: 0,
                duration_ms,
                timestamp: t,
                used_llm: false,
            },
        )
    } else {
        None
    }
}

/// The identifiers and texts of some units.
pub open spec fn unit_pairs(us: Seq<Unit>) -> Seq<(Seq<char>, Seq<char>)> {
    us.map_values(|u: Unit| (u.id, u.text))
}

/// The texts of some units.
pub open spec fn unit_texts(us: Seq<Unit>) -> Seq<Seq<char>> {
    us.map_values(|u: Unit| u.text)
}

/// The identifiers of some units.
pub open spec fn ids_of(us: Seq<Unit>) -> Seq<Seq<char>> {
    us.map_values(|u: Unit| u.id)
}

/// The first of the first `n` groups whose head is similar enough to the
/// unit `j`, or `n` where there is none.
pub open spec fn joining(
    groups: Seq<Seq<int>>,
    n: nat,
    sims: Seq<Seq<i64>>,
    j: int,
    thresh: i64,
) -> int
    decreases n,
{
    if n == 0 {
        0
    } else {
        let g = joining(groups, (n - 1) as nat, sims, j, thresh);
        if g < n - 1 {
            g
        } else if sims[groups[n - 1][0]][j] >= thresh {
            n - 1
        } else {
            n as int
        }
    }
}

/// The groups of the first `n` units: a unit joins the first group whose
/// head it resembles, else it heads a new one.
pub open spec fn similar_groups(sims: Seq<Seq<i64>>, n: nat, thresh: i64) -> Seq<Seq<int>>
    decreases n,
{
    if n == 0 {
        seq![]
    } else {
        let before = similar_groups(sims, (n - 1) as nat, thresh);
        let g = joining(before, before.len(), sims, n - 1, thresh);
        if g < before.len() {
            before.update(g, before[g].push(n - 1))
        } else {
            before.push(seq![n - 1])
        }
    }
}

/// The units at some positions.
pub open spec fn at_positions(us: Seq<Unit>, ps: Seq<int>) -> Seq<Unit> {
    ps.map_values(|p: int| us[p])
}

/// The tags of a group: those of its head, and what the first `n` members
/// add.
pub open spec fn group_tags(g: Seq<Unit>, n: nat) -> Seq<Seq<char>>
    decreases n,
{
    if n == 0 {
        g[0].tags
    } else {
        merged_tags(group_tags(g, (n - 1) as nat), g[n - 1].tags)
    }
}

/// The observation that a group of memories becomes.
pub open spec fn group_observation(g: Seq<Unit>) -> Consolidated {
    Consolidated {
        id: None,
        text: "Pattern across "@ + dec(g.len()) + " memories: "@ + joined(
            unit_texts(at_most(g, 3)),
            "; "@,
        ),
        source_memory_ids: ids_of(g),
        tags: group_tags(g, g.len()),
    }
}

/// Whether an observation with the given text is in a list.
pub open spec fn has_text(cs: Seq<Consolidated>, text: Seq<char>) -> bool {
    exists|i: int| 0 <= i < cs.len() && (#[trigger] cs[i]).text == text
}

/// The observations of the first `n` groups: one for each group of at least
/// two, unless an earlier one has the same text.
pub open spec fn group_observations(us: Seq<Unit>, groups: Seq<Seq<int>>, n: nat) -> Seq<
    Consolidated,
>
    decreases n,
{
    if n == 0 {
        seq![]
    } else {
        let before = group_observations(us, groups, (n - 1) as nat);
        let c = group_observation(at_positions(us, groups[n - 1]));
        if groups[n - 1].len() >= 2 && !has_text(before, c.text) {
            before.push(c)
        } else {
            before
        }
    }
}

/// The unit that a new observation becomes, with the given identifier, as of
/// the given time.
pub open spec fn created_unit(
    bank_id: Seq<char>,
    c: Consolidated,
    embedding: Seq<u32>,
    id: Seq<char>,
    t: Timestamp,
) -> Unit {
    Unit {
        tags: c.tags,
        source_memory_ids: c.source_memory_ids,
        proof_count: if c.source_memory_ids.len() > 1 {
            (c.source_memory_ids.len() % 0x1_0000_0000) as u32
        } else {
            1
        },
        embedding,
        history: seq![Revision { at: t, action: "create"@, note: None }],
        ..fresh_unit(bank_id, c.text, FactType::Observation, id, t)
    }
}

/// An observation after an update: new text, more sources, tags where any
/// are given.
pub open spec fn updated_unit(e: Unit, u: Consolidated, embedding: Seq<u32>, t: Timestamp) -> Unit {
    let sources = merged_tags(e.source_memory_ids, u.source_memory_ids);
    Unit {
        text: u.text,
        source_memory_ids: sources,
        proof_count: (sources.len() % 0x1_0000_0000) as u32,
        tags: if u.tags.len() > 0 {
            u.tags
        } else {
            e.tags
        },
        history: e.history.push(Revision { at: t, action: "update"@, note: None }),
        embedding,
        ..e
    }
}

/// A unit after it was consolidated.
pub open spec fn marked_unit(u: Unit, t: Timestamp) -> Unit {
    Unit { metadata: u.metadata.insert("consolidated_at"@, rfc3339_text(t)), ..u }
}

/// A consolidated unit is not consolidated again.
pub proof fn law_marked_is_not_pending(u: Unit, t: Timestamp)
    ensures
        !pending(marked_unit(u, t)),
{
}

proof fn lemma_joining(groups: Seq<Seq<int>>, n: nat, sims: Seq<Seq<i64>>, j: int, thresh: i64)
    ensures
        0 <= joining(groups, n, sims, j, thresh) <= n,
    decreases n,
{
    if n > 0 {
        lemma_joining(groups, (n - 1) as nat, sims, j, thresh);
    }
}

proof fn lemma_groups(sims: Seq<Seq<i64>>, n: nat, thresh: i64)
    ensures
        ({
            let gs = similar_groups(sims, n, thresh);
            &&& gs.len() <= n
            &&& forall|g: int| 0 <= g < gs.len() ==> (#[trigger] gs[g]).len() > 0
            &&& forall|g: int, p: int|
                0 <= g < gs.len() && 0 <= p < gs[g].len() ==> 0 <= #[trigger] gs[g][p] < n
        }),
    decreases n,
{
    if n > 0 {
        lemma_groups(sims, (n - 1) as nat, thresh);
        let before = similar_groups(sims, (n - 1) as nat, thresh);
        lemma_joining(before, before.len(), sims, n - 1, thresh);
        let gs = similar_groups(sims, n, thresh);
        assert forall|g: int, p: int| 0 <= g < gs.len() && 0 <= p < gs[g].len() implies 0
            <= #[trigger] gs[g][p] < n by {
            if g < before.len() && p < before[g].len() {
                assert(gs[g][p] == before[g][p]);
            }
        }
    }
}

/// Whether a unit is in one of some groups.
pub open spec fn in_a_group(gs: Seq<Seq<int>>, j: int) -> bool {
    exists|g: int, p: int|
        0 <= g < gs.len() && 0 <= p < gs[g].len() && #[trigger] gs[g][p] == j
}

/// Every unit is in exactly one group, once.
pub proof fn law_groups_partition(sims: Seq<Seq<i64>>, n: nat, thresh: i64)
    ensures
        ({
            let gs = similar_groups(sims, n, thresh);
            &&& forall|j: int| 0 <= j < n ==> #[trigger] in_a_group(gs, j)
            &&& forall|g: int, p: int, h: int, q: int|
                0 <= g < gs.len() && 0 <= p < gs[g].len() && 0 <= h < gs.len() && 0 <= q
                    < gs[h].len() && #[trigger] gs[g][p] == #[trigger] gs[h][q] ==> g == h && p == q
        }),
    decreases n,
{
    if n > 0 {
        law_groups_partition(sims, (n - 1) as nat, thresh);
        lemma_groups(sims, (n - 1) as nat, thresh);
        let before = similar_groups(sims, (n - 1) as nat, thresh);
        lemma_joining(before, before.len(), sims, n - 1, thresh);
        let gs = similar_groups(sims, n, thresh);
        let at = joining(before, before.len(), sims, n - 1, thresh);
        assert forall|j: int| 0 <= j < n implies #[trigger] in_a_group(gs, j) by {
            if j < n - 1 {
                assert(in_a_group(before, j));
                let (g, p) = choose|g: int, p: int|
                    0 <= g < before.len() && 0 <= p < before[g].len() && #[trigger] before[g][p]
                        == j;
                assert(gs[g][p] == j);
            } else if at < before.len() {
                assert(gs[at][before[at].len() as int] == j);
            } else {
                assert(gs[before.len() as int][0] == j);
            }
        }
        assert forall|g: int, p: int, h: int, q: int|
            0 <= g < gs.len() && 0 <= p < gs[g].len() && 0 <= h < gs.len() && 0 <= q < gs[h].len()
                && #[trigger] gs[g][p] == #[trigger] gs[h][q] implies g == h && p == q by {
            let a = g < before.len() && p < before[g].len();
            let b = h < before.len() && q < before[h].len();
            if a {
                assert(gs[g][p] == before[g][p]);
                assert(0 <= before[g][p] < n - 1);
            }
            if b {
                assert(gs[h][q] == before[h][q]);
                assert(0 <= before[h][q] < n - 1);
            }
        }
    }
}

proof fn lemma_joins_first(
    groups: Seq<Seq<int>>,
    n: nat,
    sims: Seq<Seq<i64>>,
    j: int,
    thresh: i64,
)
    ensures
        ({
            let g = joining(groups, n, sims, j, thresh);
            &&& 0 <= g <= n
            &&& g < n ==> sims[groups[g][0]][j] >= thresh
            &&& forall|h: int| 0 <= h < g ==> sims[#[trigger] groups[h][0]][j] < thresh
        }),
    decreases n,
{
    if n > 0 {
        lemma_joins_first(groups, (n - 1) as nat, sims, j, thresh);
    }
}

/// Every member of a group resembles its head, which is its earliest member;
/// no head resembles an earlier head; and no member resembles the head of an
/// earlier group.
pub proof fn law_groups_follow_similarity(sims: Seq<Seq<i64>>, n: nat, thresh: i64)
    ensures
        ({
            let gs = similar_groups(sims, n, thresh);
            &&& forall|g: int, p: int|
                0 <= g < gs.len() && 0 < p < gs[g].len() ==> sims[gs[g][0]][#[trigger] gs[g][p]]
                    >= thresh && gs[g][0] < gs[g][p]
            &&& forall|g: int, h: int, p: int|
                0 <= g < h < gs.len() && 0 <= p < gs[h].len() && #[trigger] gs[g][0]
                    < #[trigger] gs[h][p] ==> sims[gs[g][0]][gs[h][p]] < thresh
            &&& forall|g: int, h: int|
                0 <= g < h < gs.len() ==> #[trigger] gs[g][0] < #[trigger] gs[h][0]
        }),
    decreases n,
{
    if n > 0 {
        law_groups_follow_similarity(sims, (n - 1) as nat, thresh);
        lemma_groups(sims, (n - 1) as nat, thresh);
        let b = similar_groups(sims, (n - 1) as nat, thresh);
        let gs = similar_groups(sims, n, thresh);
        let at = joining(b, b.len(), sims, n - 1, thresh);
        lemma_joins_first(b, b.len(), sims, n - 1, thresh);
        assert forall|g: int| 0 <= g < b.len() implies #[trigger] gs[g][0] == b[g][0] && 0
            <= b[g][0] < n - 1 by {
            assert(b[g].len() > 0);
            assert(0 <= b[g][0] < n - 1);
        }
        assert forall|g: int, p: int| 0 <= g < gs.len() && 0 < p < gs[g].len() implies sims[gs[g][0]][
            #[trigger] gs[g][p]] >= thresh && gs[g][0] < gs[g][p] by {
            if g < b.len() && p < b[g].len() {
                assert(gs[g][p] == b[g][p]);
            }
        }
        assert forall|g: int, h: int, p: int|
            0 <= g < h < gs.len() && 0 <= p < gs[h].len() && #[trigger] gs[g][0]
                < #[trigger] gs[h][p] implies sims[gs[g][0]][gs[h][p]] < thresh by {
            if h < b.len() && p < b[h].len() {
                assert(gs[h][p] == b[h][p]);
                assert(b[g][0] < b[h][p]);
            } else {
                assert(gs[h][p] == n - 1);
                assert(g < at);
                assert(sims[b[g][0]][n - 1] < thresh);
            }
        }
        assert forall|g: int, h: int| 0 <= g < h < gs.len() implies #[trigger] gs[g][0]
            < #[trigger] gs[h][0] by {
            if h < b.len() {
                assert(b[g][0] < b[h][0]);
            }
        }
    }
}

/// Whether an observation is that of one of the first `n` groups, and of one
/// with two or more members.
pub open spec fn observes_some(c: Consolidated, us: Seq<Unit>, groups: Seq<Seq<int>>, n: nat) -> bool {
    exists|g: int| 0 <= g < n && groups[g].len() >= 2 && #[trigger] observes(c, us, groups[g])
}

proof fn lemma_patterns_present(us: Seq<Unit>, groups: Seq<Seq<int>>, n: nat, g: int)
    requires
        0 <= g < n <= groups.len(),
        groups[g].len() >= 2,
    ensures
        has_text(
            group_observations(us, groups, n),
            group_observation(at_positions(us, groups[g])).text,
        ),
    decreases n,
{
    let b = group_observations(us, groups, (n - 1) as nat);
    let cs = group_observations(us, groups, n);
    let t = group_observation(at_positions(us, groups[g])).text;
    if g < n - 1 {
        lemma_patterns_present(us, groups, (n - 1) as nat, g);
    }
    if has_text(b, t) {
        let i = choose|i: int| 0 <= i < b.len() && (#[trigger] b[i]).text == t;
        assert(cs[i].text == t);
    } else {
        assert(cs[b.len() as int].text == t);
    }
}

proof fn lemma_patterns_sound(us: Seq<Unit>, groups: Seq<Seq<int>>, n: nat, i: int)
    requires
        n <= groups.len(),
        0 <= i < group_observations(us, groups, n).len(),
    ensures
        observes_some(group_observations(us, groups, n)[i], us, groups, n),
    decreases n,
{
    if n > 0 {
        let b = group_observations(us, groups, (n - 1) as nat);
        let cs = group_observations(us, groups, n);
        if i < b.len() {
            lemma_patterns_sound(us, groups, (n - 1) as nat, i);
            assert(cs[i] == b[i]);
            let g = choose|g: int|
                0 <= g < n - 1 && groups[g].len() >= 2 && #[trigger] observes(b[i], us, groups[g]);
            assert(observes(cs[i], us, groups[g]));
        } else {
            lemma_observes(us, groups[n - 1]);
            assert(observes(cs[i], us, groups[n - 1]));
        }
    }
}

proof fn lemma_patterns_distinct(us: Seq<Unit>, groups: Seq<Seq<int>>, n: nat, i: int, j: int)
    requires
        n <= groups.len(),
        0 <= i < j < group_observations(us, groups, n).len(),
    ensures
        group_observations(us, groups, n)[i].text != group_observations(us, groups, n)[j].text,
    decreases n,
{
    if n > 0 {
        let b = group_observations(us, groups, (n - 1) as nat);
        if j < b.len() {
            lemma_patterns_distinct(us, groups, (n - 1) as nat, i, j);
        } else {
            assert(group_observations(us, groups, n)[i] == b[i]);
        }
    }
}

/// Every group of two or more memories becomes an observation, and nothing
/// else does: each observation has the members of one such group as its
/// sources. Where two groups would say the same, it is said once.
pub proof fn law_every_pattern_is_observed(us: Seq<Unit>, groups: Seq<Seq<int>>)
    ensures
        ({
            let cs = group_observations(us, groups, groups.len());
            &&& forall|g: int|
                0 <= g < groups.len() && (#[trigger] groups[g]).len() >= 2 ==> has_text(
                    cs,
                    group_observation(at_positions(us, groups[g])).text,
                )
            &&& forall|i: int|
                0 <= i < cs.len() ==> observes_some(#[trigger] cs[i], us, groups, groups.len())
            &&& forall|i: int, j: int|
                0 <= i < j < cs.len() ==> (#[trigger] cs[i]).text != (#[trigger] cs[j]).text
        }),
{
    let n = groups.len();
    let cs = group_observations(us, groups, n);
    assert forall|g: int| 0 <= g < n && (#[trigger] groups[g]).len() >= 2 implies has_text(
        cs,
        group_observation(at_positions(us, groups[g])).text,
    ) by {
        lemma_patterns_present(us, groups, n, g);
    }
    assert forall|i: int| 0 <= i < cs.len() implies observes_some(
        #[trigger] cs[i],
        us,
        groups,
        n,
    ) by {
        lemma_patterns_sound(us, groups, n, i);
    }
    assert forall|i: int, j: int| 0 <= i < j < cs.len() implies (#[trigger] cs[i]).text != (
    #[trigger] cs[j]).text by {
        lemma_patterns_distinct(us, groups, n, i, j);
    }
}

/// Whether an observation is a new one that names the members of a group as
/// its sources, in their order, and carries all of their tags.
pub open spec fn observes(c: Consolidated, us: Seq<Unit>, group: Seq<int>) -> bool {
    &&& c.id is None
    &&& c.source_memory_ids.len() == group.len()
    &&& forall|p: int| 0 <= p < group.len() ==> #[trigger] c.source_memory_ids[p] == us[group[p]].id
    &&& forall|p: int, q: int|
        0 <= p < group.len() && 0 <= q < us[group[p]].tags.len() ==> c.tags.contains(
            #[trigger] us[group[p]].tags[q],
        )
}

proof fn lemma_group_tags(g: Seq<Unit>, n: nat)
    requires
        n <= g.len(),
    ensures
        forall|p: int, q: int|
            0 <= p < n && 0 <= q < g[p].tags.len() ==> group_tags(g, n).contains(
                #[trigger] g[p].tags[q],
            ),
    decreases n,
{
    if n > 0 {
        lemma_group_tags(g, (n - 1) as nat);
        let b = group_tags(g, (n - 1) as nat);
        lemma_merged_holds(b, g[n - 1].tags);
        assert forall|p: int, q: int| 0 <= p < n && 0 <= q < g[p].tags.len() implies group_tags(
            g,
            n,
        ).contains(#[trigger] g[p].tags[q]) by {
            if p < n - 1 {
                assert(b.contains(g[p].tags[q]));
            } else {
                assert(g[n - 1].tags.contains(g[p].tags[q]));
            }
        }
    }
}

proof fn lemma_merged_holds(a: Seq<Seq<char>>, b: Seq<Seq<char>>)
    ensures
        forall|t: Seq<char>|
            a.contains(t) || b.contains(t) ==> #[trigger] merged_tags(a, b).contains(t),
    decreases b.len(),
{
    if b.len() > 0 {
        let d = b.drop_last();
        lemma_merged_holds(a, d);
        let m = merged_tags(a, d);
        let r = merged_tags(a, b);
        assert forall|t: Seq<char>| a.contains(t) || b.contains(t) implies #[trigger] r.contains(
            t,
        ) by {
            if b.contains(t) {
                let q = choose|q: int| 0 <= q < b.len() && b[q] == t;
                if q < d.len() {
                    assert(d[q] == t);
                }
            }
            if a.contains(t) || d.contains(t) {
                assert(m.contains(t));
                let q = choose|q: int| 0 <= q < m.len() && m[q] == t;
                assert(r[q] == t);
            } else {
                assert(t == b.last());
                if !m.contains(t) {
                    assert(r[m.len() as int] == t);
                }
            }
        }
    }
}

proof fn lemma_observes(us: Seq<Unit>, group: Seq<int>)
    ensures
        observes(group_observation(at_positions(us, group)), us, group),
{
    let g = at_positions(us, group);
    lemma_group_tags(g, g.len());
    let c = group_observation(g);
    assert forall|p: int, q: int| 0 <= p < group.len() && 0 <= q < us[group[p]].tags.len() implies c.tags.contains(
        #[trigger] us[group[p]].tags[q],
    ) by {
        assert(g[p].tags[q] == us[group[p]].tags[q]);
    }
}

/// Whether a memory is a member of a group of two or more whose observation
/// is made, or is made already with the same text.
pub open spec fn is_observed(
    us: Seq<Unit>,
    gs: Seq<Seq<int>>,
    cs: Seq<Consolidated>,
    h: int,
    j: int,
) -> bool {
    &&& 0 <= h < gs.len()
    &&& gs[h].len() >= 2
    &&& gs[h].contains(j)
    &&& has_text(cs, group_observation(at_positions(us, gs[h])).text)
}

/// A memory that resembles the head of a group before it is a source of an
/// observation, unless another observation says the same as that of its
/// group.
pub proof fn law_similar_memory_is_observed(
    us: Seq<Unit>,
    sims: Seq<Seq<i64>>,
    thresh: i64,
    g: int,
    j: int,
)
    requires
        0 <= g < similar_groups(sims, us.len(), thresh).len(),
        similar_groups(sims, us.len(), thresh)[g][0] < j < us.len(),
        sims[similar_groups(sims, us.len(), thresh)[g][0]][j] >= thresh,
    ensures
        ({
            let gs = similar_groups(sims, us.len(), thresh);
            let cs = group_observations(us, gs, gs.len());
            exists|h: int| #[trigger] is_observed(us, gs, cs, h, j)
        }),
{
    let gs = similar_groups(sims, us.len(), thresh);
    let cs = group_observations(us, gs, gs.len());
    let h = lemma_similar_is_grouped(sims, us.len(), thresh, g, j);
    lemma_patterns_present(us, gs, gs.len(), h);
    assert(is_observed(us, gs, cs, h, j));
}

proof fn lemma_similar_is_grouped(
    sims: Seq<Seq<i64>>,
    n: nat,
    thresh: i64,
    g: int,
    j: int,
) -> (h: int)
    requires
        0 <= g < similar_groups(sims, n, thresh).len(),
        similar_groups(sims, n, thresh)[g][0] < j < n,
        sims[similar_groups(sims, n, thresh)[g][0]][j] >= thresh,
    ensures
        0 <= h < similar_groups(sims, n, thresh).len(),
        similar_groups(sims, n, thresh)[h].len() >= 2,
        similar_groups(sims, n, thresh)[h].contains(j),
{
    let gs = similar_groups(sims, n, thresh);
    lemma_groups(sims, n, thresh);
    law_groups_partition(sims, n, thresh);
    law_groups_follow_similarity(sims, n, thresh);
    assert(0 <= gs[g][0] < n);
    assert(in_a_group(gs, j));
    let (h, p) = choose|h: int, p: int|
        0 <= h < gs.len() && 0 <= p < gs[h].len() && #[trigger] gs[h][p] == j;
    if gs[h].len() == 1 {
        assert(gs[h][0] == j);
        if h < g {
            assert(gs[h][0] < gs[g][0]);
        } else if g < h {
            assert(gs[g][0] < gs[h][0]);
        }
    }
    h
}

/// The text of an observation says how many memories it stands for, and then
/// quotes the first three of them in turn.
pub proof fn law_observation_quotes_its_memories(g: Seq<Unit>)
    requires
        g.len() >= 2,
    ensures
        ({
            let text = group_observation(g).text;
            &&& g.len() == 2 ==> text == "Pattern across "@ + dec(2) + " memories: "@ + g[0].text
                + "; "@ + g[1].text
            &&& g.len() >= 3 ==> text == "Pattern across "@ + dec(g.len()) + " memories: "@
                + g[0].text + "; "@ + g[1].text + "; "@ + g[2].text
        }),
{
    let n = if g.len() == 2 {
        2int
    } else {
        3int
    };
    let ts = unit_texts(at_most(g, 3));
    reveal_with_fuel(joined, 4);
    assert(ts.len() == n);
    assert(ts[0] == g[0].text && ts[1] == g[1].text);
    let j = joined(ts, "; "@);
    let text = group_observation(g).text;
    if g.len() == 2 {
        assert(ts =~= seq![g[0].text, g[1].text]);
        assert(ts.drop_last() =~= seq![g[0].text]);
        assert(j =~= g[0].text + "; "@ + g[1].text);
        assert(text =~= "Pattern across "@ + dec(2) + " memories: "@ + g[0].text + "; "@
            + g[1].text);
    } else {
        assert(ts[2] == g[2].text);
        assert(ts =~= seq![g[0].text, g[1].text, g[2].text]);
        let d = ts.drop_last();
        assert(d =~= seq![g[0].text, g[1].text]);
        assert(d.drop_last() =~= seq![g[0].text]);
        assert(joined(d, "; "@) =~= g[0].text + "; "@ + g[1].text);
        assert(j =~= g[0].text + "; "@ + g[1].text + "; "@ + g[2].text);
        assert(text =~= "Pattern across "@ + dec(g.len()) + " memories: "@ + g[0].text + "; "@
            + g[1].text + "; "@ + g[2].text);
    }
}

/// The rows of a table of similarities.
pub open spec fn table(m: Seq<Vec<i64>>) -> Seq<Seq<i64>> {
    m.map_values(|r: Vec<i64>| r@)
}

spec fn member_lists(s: Seq<Vec<usize>>) -> Seq<Seq<int>> {
    s.map_values(|v: Vec<usize>| indices(v@))
}

fn texts_of(us: &Vec<MemoryUnit>, members: &Vec<usize>, most: usize) -> (r: Vec<String>)
    requires
        forall|i: int| 0 <= i < members@.len() ==> #[trigger] members@[i] < us@.len(),
    ensures
        views(r@) == unit_texts(
            at_most(at_positions(unit_views(us@), indices(members@)), most as nat),
        ),
{
    let ghost g = at_positions(unit_views(us@), indices(members@));
    let mut out: Vec<String> = Vec::new();
    let mut i: usize = 0;
    proof {
        assert(views(out@) =~= unit_texts(g.take(0)));
    }
    while i < members.len() && i < most
        invariant
            i <= members@.len(),
            i <= most,
            forall|i: int| 0 <= i < members@.len() ==> #[trigger] members@[i] < us@.len(),
            g == at_positions(unit_views(us@), indices(members@)),
            views(out@) == unit_texts(g.take(i as int)),
        decreases members@.len() - i,
    {
        let t: String = us[members[i]].text.clone();
        proof {
            lemma_views_push(out@, t);
            assert(g[i as int] == us@[members@[i as int] as int]@);
            assert(unit_texts(g.take(i + 1)) =~= unit_texts(g.take(i as int)).push(t@));
        }
        out.push(t);
        i = i + 1;
    }
    proof {
        assert(g.take(i as int) =~= at_most(g, most as nat));
    }
    out
}

fn observe(us: &Vec<MemoryUnit>, members: &Vec<usize>) -> (r: ConsolidatedObservation)
    requires
        members@.len() > 0,
        forall|i: int| 0 <= i < members@.len() ==> #[trigger] members@[i] < us@.len(),
    ensures
        r@ == group_observation(at_positions(unit_views(us@), indices(members@))),
{
    let ghost g = at_positions(unit_views(us@), indices(members@));
    let texts: Vec<String> = texts_of(us, members, 3);
    let mut tags: Vec<String> = copy_strings(&us[members[0]].tags);
    let mut ids: Vec<String> = Vec::new();
    proof {
        assert(g[0] == us@[members@[0] as int]@);
        assert(views(ids@) =~= ids_of(g.take(0)));
    }
    for i in 0..members.len()
        invariant
            forall|i: int| 0 <= i < members@.len() ==> #[trigger] members@[i] < us@.len(),
            g == at_positions(unit_views(us@), indices(members@)),
            views(tags@) == group_tags(g, i as nat),
            views(ids@) == ids_of(g.take(i as int)),
    {
        let u: &MemoryUnit = &us[members[i]];
        let id: String = u.id.clone();
        proof {
            assert(g[i as int] == u@);
            lemma_views_push(ids@, id);
            assert(ids_of(g.take(i + 1)) =~= ids_of(g.take(i as int)).push(u@.id));
        }
        ids.push(id);
        tags = merge_tags(tags, &u.tags);
    }
    proof {
        assert(g.take(g.len() as int) =~= g);
    }
    let mut text: String = owned("Pattern across ");
    text.append(fmt_u64(members.len() as u64).as_str());
    text.append(" memories: ");
    text.append(join(&texts, "; ").as_str());
    ConsolidatedObservation { id: None, text, source_memory_ids: ids, tags }
}

/// How many of some flags are set.
pub open spec fn count_set(v: Seq<bool>) -> nat
    decreases v.len(),
{
    if v.len() == 0 {
        0
    } else {
        count_set(v.drop_last()) + (if v.last() {
            1nat
        } else {
            0nat
        })
    }
}

/// How a run begins.
#[derive(Debug)]
pub enum Start {
    /// There is nothing to consolidate, and the run is over.
    Idle(ConsolidationResult),
    /// There are memories to consolidate.
    Work(Vec<MemoryUnit>),
}

/// One change that a consolidation makes.
#[derive(Debug, Clone)]
pub enum Change {
    /// Creates an observation.
    Create(ConsolidatedObservation),
    /// Updates the observation of an identifier.
    Update(String, ConsolidatedObservation),
    /// Deletes the observation of an identifier.
    Delete(String),
    /// Marks a source as consolidated.
    Mark(MemoryUnit),
}

/// A change as a mathematical value.
pub enum Planned {
    Create(Consolidated),
    Update(Seq<char>, Consolidated),
    Delete(Seq<char>),
    Mark(Unit),
}

impl View for Change {
    type V = Planned;

    open spec fn view(&self) -> Planned {
        match self {
            Change::Create(c) => Planned::Create(c@),
            Change::Update(id, u) => Planned::Update(id@, u@),
            Change::Delete(id) => Planned::Delete(id@),
            Change::Mark(u) => Planned::Mark(u@),
        }
    }
}

/// The views of a sequence of changes.
pub open spec fn change_views(s: Seq<Change>) -> Seq<Planned> {
    s.map_values(|c: Change| c@)
}

/// The updates of observations; one that names none is left out.
pub open spec fn planned_updates(us: Seq<Consolidated>) -> Seq<Planned>
    decreases us.len(),
{
    if us.len() == 0 {
        seq![]
    } else {
        let before = planned_updates(us.drop_last());
        match us.last().id {
            Some(id) => before.push(Planned::Update(id, us.last())),
            None => before,
        }
    }
}

/// All changes of a consolidation: first what is created, then what is
/// updated and deleted; at the end every source is marked.
pub open spec fn planned_changes(
    creates: Seq<Consolidated>,
    updates: Seq<Consolidated>,
    deletes: Seq<Seq<char>>,
    sources: Seq<Unit>,
) -> Seq<Planned> {
    creates.map_values(|c: Consolidated| Planned::Create(c)) + planned_updates(updates)
        + deletes.map_values(|id: Seq<char>| Planned::Delete(id)) + sources.map_values(
        |u: Unit| Planned::Mark(u),
    )
}

/// Every source of a consolidation is marked, whatever was decided.
pub proof fn law_every_source_is_marked(
    creates: Seq<Consolidated>,
    updates: Seq<Consolidated>,
    deletes: Seq<Seq<char>>,
    sources: Seq<Unit>,
    i: int,
)
    requires
        0 <= i < sources.len(),
    ensures
        planned_changes(creates, updates, deletes, sources).contains(Planned::Mark(sources[i])),
{
    let cs = planned_changes(creates, updates, deletes, sources);
    let k = creates.len() + planned_updates(updates).len() + deletes.len() + i;
    assert(cs[k] == Planned::Mark(sources[i]));
}

/// A bank after a unit was stored: it takes the place of the one with the
/// same identifier, where there is one.
pub open spec fn with_stored(bank: Seq<Unit>, u: Unit) -> Seq<Unit> {
    if exists|i: int| 0 <= i < bank.len() && (#[trigger] bank[i]).id == u.id {
        bank.map_values(
            |v: Unit|
                if v.id == u.id {
                    u
                } else {
                    v
                },
        )
    } else {
        bank.push(u)
    }
}

/// What the surroundings add to a change: the embedding of its text, the
/// identifier of a new unit, and the time.
pub struct Made {
    pub embedding: Seq<u32>,
    pub id: Seq<char>,
    pub at: Timestamp,
}

/// A bank after a change that succeeded. An update of an observation that is
/// not there changes nothing.
pub open spec fn after_change(bank: Seq<Unit>, bank_id: Seq<char>, c: Planned, m: Made) -> Seq<
    Unit,
> {
    match c {
        Planned::Create(o) => with_stored(
            bank,
            created_unit(bank_id, o, m.embedding, m.id, m.at),
        ),
        Planned::Update(id, o) => if exists|i: int|
            0 <= i < bank.len() && (#[trigger] bank[i]).id == id {
            let i = choose|i: int| 0 <= i < bank.len() && (#[trigger] bank[i]).id == id;
            with_stored(bank, updated_unit(bank[i], o, m.embedding, m.at))
        } else {
            bank
        },
        Planned::Delete(id) => bank.filter(|u: Unit| u.id != id),
        Planned::Mark(u) => with_stored(bank, marked_unit(u, m.at)),
    }
}

/// A bank after the first `n` changes.
pub open spec fn after_changes(
    bank: Seq<Unit>,
    bank_id: Seq<char>,
    cs: Seq<Planned>,
    made: Seq<Made>,
    n: nat,
) -> Seq<Unit>
    decreases n,
{
    if n == 0 {
        bank
    } else {
        after_change(
            after_changes(bank, bank_id, cs, made, (n - 1) as nat),
            bank_id,
            cs[n - 1],
            made[n - 1],
        )
    }
}

/// The date by which a bank lists a unit, as text.
pub open spec fn listing_date(u: Unit) -> Seq<char> {
    rfc3339_text(
        match u.event_date {
            Some(t) => t,
            None => u.mentioned_at,
        },
    )
}

/// Whether a unit is listed before another for its date.
pub open spec fn dated_after(u: Unit, v: Unit) -> bool {
    lex_less(listing_date(v), listing_date(u))
}

/// No two units share an identifier.
pub open spec fn ids_distinct(bank: Seq<Unit>) -> bool {
    forall|i: int, j: int|
        0 <= i < j < bank.len() ==> (#[trigger] bank[i]).id != (#[trigger] bank[j]).id
}

/// Whether a list holds the units of a bank that have a fact type, as many
/// as the limit allows, the latest ones; which of two units of one date is
/// listed is left open.
pub open spec fn lists(bank: Seq<Unit>, t: FactType, limit: nat, list: Seq<Unit>) -> bool {
    &&& list.len() <= limit
    &&& list.no_duplicates()
    &&& forall|u: Unit| #[trigger] list.contains(u) ==> bank.contains(u) && u.fact_type == t
    &&& forall|u: Unit| #[trigger]
        bank.contains(u) && u.fact_type == t && !list.contains(u) ==> list.len() == limit
            && forall|v: Unit| #[trigger] list.contains(v) ==> !dated_after(u, v)
}

/// Whether no change deletes the unit of an identifier or creates another in
/// its place.
pub open spec fn survives(id: Seq<char>, cs: Seq<Planned>, made: Seq<Made>) -> bool {
    forall|j: int|
        0 <= j < cs.len() ==> (#[trigger] cs[j]) != Planned::Delete(id) && (cs[j] is Create
            ==> made[j].id != id)
}

/// Whether the limit keeps out what it kept out before: where a unit that
/// waits is not listed, all that are listed have a later date and survive.
/// Where the limit keeps out nothing that waits, this says nothing.
pub open spec fn stays_out(
    bank: Seq<Unit>,
    t: FactType,
    list: Seq<Unit>,
    cs: Seq<Planned>,
    made: Seq<Made>,
) -> bool {
    forall|u: Unit| #[trigger]
        bank.contains(u) && u.fact_type == t && pending(u) && !list.contains(u) ==> forall|v: Unit|
         #[trigger] list.contains(v) ==> dated_after(v, u) && survives(v.id, cs, made)
}

/// Whether a unit has what a bank lists it by from another.
spec fn stands_for(u: Unit, v: Unit) -> bool {
    u.id == v.id && u.fact_type == v.fact_type && u.event_date == v.event_date && u.mentioned_at
        == v.mentioned_at
}

/// Whether a unit was left out of a list though it waited.
spec fn left_out(bank: Seq<Unit>, list: Seq<Unit>, u: Unit) -> bool {
    exists|v: Unit| #[trigger]
        bank.contains(v) && pending(v) && !list.contains(v) && stands_for(u, v)
}

/// Whether a change marks a unit.
spec fn marks_unit(c: Planned, id: Seq<char>) -> bool {
    c matches Planned::Mark(s) && s.id == id
}

/// Whether a mark for a unit stands among the changes from the `n`-th on.
spec fn marked_from(cs: Seq<Planned>, n: int, id: Seq<char>) -> bool {
    exists|j: int| n <= j < cs.len() && marks_unit(#[trigger] cs[j], id)
}

proof fn lemma_stored_elements(bank: Seq<Unit>, u: Unit, v: Unit)
    requires
        with_stored(bank, u).contains(v),
    ensures
        v == u || (bank.contains(v) && v.id != u.id),
{
    let t = with_stored(bank, u);
    let i = choose|i: int| 0 <= i < t.len() && t[i] == v;
    if exists|i: int| 0 <= i < bank.len() && (#[trigger] bank[i]).id == u.id {
        if bank[i].id != u.id {
            assert(bank[i] == v);
        }
    } else if i < bank.len() {
        assert(bank[i] == v);
        assert(bank[i].id != u.id);
    }
}

proof fn lemma_waiting_units_are_marked(
    bank: Seq<Unit>,
    bank_id: Seq<char>,
    cs: Seq<Planned>,
    made: Seq<Made>,
    t: FactType,
    list: Seq<Unit>,
    n: nat,
)
    requires
        n <= cs.len(),
        t != FactType::Observation,
        forall|u: Unit| #[trigger] list.contains(u) && pending(u) ==> marked_from(cs, 0, u.id),
    ensures
        forall|u: Unit| #[trigger]
            after_changes(bank, bank_id, cs, made, n).contains(u) && u.fact_type == t && pending(u)
                ==> marked_from(cs, n as int, u.id) || left_out(bank, list, u),
    decreases n,
{
    let after = after_changes(bank, bank_id, cs, made, n);
    if n == 0 {
        assert forall|u: Unit| #[trigger] after.contains(u) && u.fact_type == t && pending(
            u,
        ) implies marked_from(cs, n as int, u.id) || left_out(bank, list, u) by {
            if !list.contains(u) {
                assert(stands_for(u, u));
            }
        }
    } else {
        lemma_waiting_units_are_marked(bank, bank_id, cs, made, t, list, (n - 1) as nat);
        let before = after_changes(bank, bank_id, cs, made, (n - 1) as nat);
        let c = cs[n - 1];
        let m = made[n - 1];
        assert forall|u: Unit| #[trigger] after.contains(u) && u.fact_type == t && pending(
            u,
        ) implies marked_from(cs, n as int, u.id) || left_out(bank, list, u) by {
            match c {
                Planned::Create(o) => {
                    let x = created_unit(bank_id, o, m.embedding, m.id, m.at);
                    lemma_stored_elements(before, x, u);
                },
                Planned::Update(id, o) => {
                    if exists|i: int| 0 <= i < before.len() && (#[trigger] before[i]).id == id {
                        let i = choose|i: int|
                            0 <= i < before.len() && (#[trigger] before[i]).id == id;
                        let x = updated_unit(before[i], o, m.embedding, m.at);
                        lemma_stored_elements(before, x, u);
                        if u == x {
                            assert(before.contains(before[i]));
                            if left_out(bank, list, before[i]) {
                                let v = choose|v: Unit| #[trigger]
                                    bank.contains(v) && pending(v) && !list.contains(v)
                                        && stands_for(before[i], v);
                                assert(stands_for(u, v));
                            }
                        }
                    }
                },
                Planned::Delete(id) => {
                    before.lemma_filter_contains_rev(|v: Unit| v.id != id, u);
                },
                Planned::Mark(x) => {
                    lemma_stored_elements(before, marked_unit(x, m.at), u);
                    law_marked_is_not_pending(x, m.at);
                },
            }
            if !left_out(bank, list, u) {
                assert(marked_from(cs, n - 1, u.id));
                let j = choose|j: int|
                    n - 1 <= j < cs.len() && marks_unit(#[trigger] cs[j], u.id);
                assert(j != n - 1);
            }
        }
    }
}

/// Whether a bank holds a unit that stands for `v`, and every unit of its
/// identifier does.
spec fn keeps(bank: Seq<Unit>, v: Unit) -> bool {
    &&& exists|i: int| 0 <= i < bank.len() && (#[trigger] bank[i]).id == v.id
    &&& forall|i: int|
        0 <= i < bank.len() && (#[trigger] bank[i]).id == v.id ==> stands_for(bank[i], v)
}

proof fn lemma_stored_keeps(bank: Seq<Unit>, u: Unit, v: Unit)
    requires
        keeps(bank, v),
        u.id == v.id ==> stands_for(u, v),
    ensures
        keeps(with_stored(bank, u), v),
{
    let t = with_stored(bank, u);
    let k = choose|k: int| 0 <= k < bank.len() && (#[trigger] bank[k]).id == v.id;
    assert(t[k].id == v.id);
    assert forall|i: int| 0 <= i < t.len() && (#[trigger] t[i]).id == v.id implies stands_for(
        t[i],
        v,
    ) by {
        if i < bank.len() {
            assert(bank[i].id == t[i].id);
        }
    }
}

proof fn lemma_survivor_is_kept(
    bank: Seq<Unit>,
    bank_id: Seq<char>,
    cs: Seq<Planned>,
    made: Seq<Made>,
    v: Unit,
    n: nat,
)
    requires
        n <= cs.len(),
        ids_distinct(bank),
        bank.contains(v),
        survives(v.id, cs, made),
        forall|j: int|
            0 <= j < cs.len() ==> ((#[trigger] cs[j]) matches Planned::Mark(x) ==> bank.contains(x)),
    ensures
        keeps(after_changes(bank, bank_id, cs, made, n), v),
    decreases n,
{
    if n == 0 {
        let k = choose|k: int| 0 <= k < bank.len() && bank[k] == v;
        assert(bank[k].id == v.id);
        assert forall|i: int| 0 <= i < bank.len() && (#[trigger] bank[i]).id
            == v.id implies stands_for(bank[i], v) by {
            if i < k {
                assert(bank[i].id != bank[k].id);
            } else if k < i {
                assert(bank[k].id != bank[i].id);
            }
        }
    } else {
        lemma_survivor_is_kept(bank, bank_id, cs, made, v, (n - 1) as nat);
        let before = after_changes(bank, bank_id, cs, made, (n - 1) as nat);
        let c = cs[n - 1];
        let m = made[n - 1];
        match c {
            Planned::Create(o) => {
                lemma_stored_keeps(before, created_unit(bank_id, o, m.embedding, m.id, m.at), v);
            },
            Planned::Update(id, o) => {
                if exists|i: int| 0 <= i < before.len() && (#[trigger] before[i]).id == id {
                    let i = choose|i: int| 0 <= i < before.len() && (#[trigger] before[i]).id == id;
                    lemma_stored_keeps(before, updated_unit(before[i], o, m.embedding, m.at), v);
                }
            },
            Planned::Delete(id) => {
                let p = |u: Unit| u.id != id;
                let after = before.filter(p);
                let k = choose|k: int| 0 <= k < before.len() && (#[trigger] before[k]).id == v.id;
                before.lemma_filter_contains(p, k);
                let l = choose|l: int| 0 <= l < after.len() && after[l] == before[k];
                assert(after[l].id == v.id);
                assert forall|i: int| 0 <= i < after.len() && (#[trigger] after[i]).id
                    == v.id implies stands_for(after[i], v) by {
                    assert(after.contains(after[i]));
                    before.lemma_filter_contains_rev(p, after[i]);
                    let q = choose|q: int| 0 <= q < before.len() && before[q] == after[i];
                    assert(before[q].id == v.id);
                }
            },
            Planned::Mark(x) => {
                if x.id == v.id {
                    lemma_same_unit(bank, x, v);
                }
                lemma_stored_keeps(before, marked_unit(x, m.at), v);
            },
        }
    }
}

proof fn lemma_same_unit(bank: Seq<Unit>, u: Unit, v: Unit)
    requires
        ids_distinct(bank),
        bank.contains(u),
        bank.contains(v),
        u.id == v.id,
    ensures
        u == v,
{
    let i = choose|i: int| 0 <= i < bank.len() && bank[i] == u;
    let j = choose|j: int| 0 <= j < bank.len() && bank[j] == v;
    if i < j {
        assert(bank[i].id != bank[j].id);
    } else if j < i {
        assert(bank[j].id != bank[i].id);
    }
}

/// A list that holds a unit besides all of `list` is longer than it.
proof fn lemma_longer(list: Seq<Unit>, longer: Seq<Unit>, u: Unit)
    requires
        ids_distinct(list),
        longer.contains(u),
        forall|i: int| 0 <= i < list.len() ==> (#[trigger] list[i]).id != u.id,
        forall|i: int|
            0 <= i < list.len() ==> ids_of(longer).contains((#[trigger] list[i]).id),
    ensures
        longer.len() > list.len(),
{
    let a = ids_of(list);
    let b = ids_of(longer);
    assert(a.no_duplicates()) by {
        assert forall|i: int, j: int| 0 <= i < a.len() && 0 <= j < a.len() && i != j implies a[i]
            != a[j] by {
            if i < j {
                assert(list[i].id != list[j].id);
            } else {
                assert(list[j].id != list[i].id);
            }
        }
    }
    a.unique_seq_to_set();
    b.lemma_cardinality_of_set();
    let k = choose|k: int| 0 <= k < longer.len() && longer[k] == u;
    assert(b[k] == u.id);
    assert(!a.to_set().contains(u.id));
    assert(a.to_set().insert(u.id).subset_of(b.to_set())) by {
        assert forall|x: Seq<char>| a.to_set().insert(u.id).contains(x) implies b.to_set().contains(
            x,
        ) by {
            if x != u.id {
                let i = choose|i: int| 0 <= i < a.len() && a[i] == x;
                assert(list[i].id == x);
            } else {
                assert(b.contains(x));
            }
        }
    }
    vstd::set_lib::lemma_len_subset(a.to_set().insert(u.id), b.to_set());
}

proof fn lemma_nothing_waits(
    bank: Seq<Unit>,
    bank_id: Seq<char>,
    cs: Seq<Planned>,
    made: Seq<Made>,
    t: FactType,
    limit: nat,
    list: Seq<Unit>,
    list_later: Seq<Unit>,
)
    requires
        t != FactType::Observation,
        ids_distinct(bank),
        lists(bank, t, limit, list),
        lists(after_changes(bank, bank_id, cs, made, cs.len()), t, limit, list_later),
        stays_out(bank, t, list, cs, made),
        forall|u: Unit| #[trigger] list.contains(u) && pending(u) ==> marked_from(cs, 0, u.id),
        forall|j: int|
            0 <= j < cs.len() ==> ((#[trigger] cs[j]) matches Planned::Mark(x) ==> bank.contains(x)),
    ensures
        pending_units(list_later) == Seq::<Unit>::empty(),
{
    let later = after_changes(bank, bank_id, cs, made, cs.len());
    lemma_waiting_units_are_marked(bank, bank_id, cs, made, t, list, cs.len());
    assert forall|i: int| 0 <= i < list_later.len() implies !pending(#[trigger] list_later[i]) by {
        let u = list_later[i];
        assert(list_later.contains(u));
        assert(later.contains(u));
        if pending(u) {
            assert(!marked_from(cs, cs.len() as int, u.id));
            assert(left_out(bank, list, u));
            let w = choose|w: Unit| #[trigger]
                bank.contains(w) && pending(w) && !list.contains(w) && stands_for(u, w);
            assert(list.len() == limit);
            assert forall|k: int| 0 <= k < list.len() implies (#[trigger] list[k]).id != u.id
                && ids_of(list_later).contains(list[k].id) by {
                let v = list[k];
                assert(list.contains(v));
                if v.id == u.id {
                    lemma_same_unit(bank, v, w);
                }
                assert(dated_after(v, w) && survives(v.id, cs, made));
                lemma_survivor_is_kept(bank, bank_id, cs, made, v, cs.len());
                let q = choose|q: int| 0 <= q < later.len() && (#[trigger] later[q]).id == v.id;
                let x = later[q];
                assert(stands_for(x, v));
                assert(later.contains(x));
                assert(dated_after(x, u));
                assert(list_later.contains(x));
                let r = choose|r: int| 0 <= r < list_later.len() && list_later[r] == x;
                assert(ids_of(list_later)[r] == v.id);
            }
            assert(ids_distinct(list)) by {
                assert forall|a: int, b: int| 0 <= a < b < list.len() implies (
                #[trigger] list[a]).id != (#[trigger] list[b]).id by {
                    assert(list.contains(list[a]) && list.contains(list[b]));
                    if list[a].id == list[b].id {
                        lemma_same_unit(bank, list[a], list[b]);
                    }
                }
            }
            lemma_longer(list, list_later, u);
        }
    }
    lemma_none_pending(list_later);
}

proof fn lemma_none_pending(us: Seq<Unit>)
    requires
        forall|i: int| 0 <= i < us.len() ==> !pending(#[trigger] us[i]),
    ensures
        pending_units(us) == Seq::<Unit>::empty(),
    decreases us.len(),
{
    reveal(Seq::filter);
    if us.len() > 0 {
        let d = us.drop_last();
        assert forall|i: int| 0 <= i < d.len() implies !pending(#[trigger] d[i]) by {
            assert(d[i] == us[i]);
        }
        lemma_none_pending(d);
        assert(!pending(us[us.len() - 1]));
    }
    assert(pending_units(us) =~= Seq::empty());
}

/// A second consolidation of a bank ends at once and changes nothing, where
/// every change of the first succeeded and no unit was added since, whatever
/// the model decided. Both see at most `limit` units of a fact type, the
/// latest; a unit that waits and was not seen the first time must stay out of
/// sight the second time, else there is work for it.
pub proof fn law_second_run_is_idle(
    bank: Seq<Unit>,
    bank_id: Seq<char>,
    limit: nat,
    world: Seq<Unit>,
    experience: Seq<Unit>,
    creates: Seq<Consolidated>,
    updates: Seq<Consolidated>,
    deletes: Seq<Seq<char>>,
    made: Seq<Made>,
    world_later: Seq<Unit>,
    experience_later: Seq<Unit>,
    memories: usize,
    duration_ms: u64,
    t: Timestamp,
)
    requires
        ids_distinct(bank),
        lists(bank, FactType::World, limit, world),
        lists(bank, FactType::Experience, limit, experience),
        ({
            let cs = planned_changes(creates, updates, deletes, sources_of(world, experience));
            let later = after_changes(bank, bank_id, cs, made, cs.len());
            &&& stays_out(bank, FactType::World, world, cs, made)
            &&& stays_out(bank, FactType::Experience, experience, cs, made)
            &&& lists(later, FactType::World, limit, world_later)
            &&& lists(later, FactType::Experience, limit, experience_later)
        }),
    ensures
        sources_of(world_later, experience_later) == Seq::<Unit>::empty(),
        idle_result(world_later, experience_later, memories, duration_ms, t) == Some(
            ConsolidationResult {
                memories_before: memories,
                memories_after: memories,
                observations_created: 0,
                observations_updated: 0,
                observations_deleted: 0,
                duration_ms,
                timestamp: t,
                used_llm: false,
            },
        ),
{
    let sources = sources_of(world, experience);
    let cs = planned_changes(creates, updates, deletes, sources);
    assert forall|u: Unit| sources.contains(u) implies #[trigger] marked_from(cs, 0, u.id) by {
        let i = choose|i: int| 0 <= i < sources.len() && sources[i] == u;
        law_every_source_is_marked(creates, updates, deletes, sources, i);
        let j = choose|j: int| 0 <= j < cs.len() && cs[j] == Planned::Mark(u);
        assert(marks_unit(cs[j], u.id));
    }
    assert forall|u: Unit| #[trigger] world.contains(u) && pending(u) implies marked_from(
        cs,
        0,
        u.id,
    ) by {
        lemma_pending_contains(world, u);
        let k = choose|k: int| 0 <= k < pending_units(world).len() && pending_units(world)[k] == u;
        assert(sources[k] == u);
    }
    assert forall|u: Unit| #[trigger] experience.contains(u) && pending(u) implies marked_from(
        cs,
        0,
        u.id,
    ) by {
        lemma_pending_contains(experience, u);
        let k = choose|k: int|
            0 <= k < pending_units(experience).len() && pending_units(experience)[k] == u;
        assert(sources[pending_units(world).len() + k] == u);
    }
    assert forall|j: int| 0 <= j < cs.len() implies ((#[trigger] cs[j]) matches Planned::Mark(x)
        ==> bank.contains(x)) by {
        if let Planned::Mark(x) = cs[j] {
            lemma_planned_updates(updates);
            let k = j - creates.len() - planned_updates(updates).len() - deletes.len();
            assert(sources[k] == x);
            let waiting = |u: Unit| pending(u);
            if k < pending_units(world).len() {
                assert(pending_units(world).contains(x));
                world.lemma_filter_contains_rev(waiting, x);
            } else {
                assert(pending_units(experience)[k - pending_units(world).len()] == x);
                assert(pending_units(experience).contains(x));
                experience.lemma_filter_contains_rev(waiting, x);
            }
        }
    }
    lemma_nothing_waits(bank, bank_id, cs, made, FactType::World, limit, world, world_later);
    lemma_nothing_waits(
        bank,
        bank_id,
        cs,
        made,
        FactType::Experience,
        limit,
        experience,
        experience_later,
    );
    assert(sources_of(world_later, experience_later) =~= Seq::empty());
}

proof fn lemma_planned_updates(us: Seq<Consolidated>)
    ensures
        forall|i: int|
            0 <= i < planned_updates(us).len() ==> (#[trigger] planned_updates(us)[i]) is Update,
    decreases us.len(),
{
    if us.len() > 0 {
        lemma_planned_updates(us.drop_last());
    }
}

proof fn lemma_pending_contains(us: Seq<Unit>, u: Unit)
    requires
        us.contains(u),
        pending(u),
    ensures
        pending_units(us).contains(u),
{
    let i = choose|i: int| 0 <= i < us.len() && us[i] == u;
    us.lemma_filter_contains(|u: Unit| pending(u), i);
}

/// Which changes created an observation.
pub open spec fn created(cs: Seq<Planned>, done: Seq<bool>) -> Seq<bool> {
    Seq::new(cs.len(), |i: int| cs[i] is Create && done[i])
}

/// Which changes updated an observation.
pub open spec fn updated(cs: Seq<Planned>, done: Seq<bool>) -> Seq<bool> {
    Seq::new(cs.len(), |i: int| cs[i] is Update && done[i])
}

/// Which changes deleted an observation, or tried to.
pub open spec fn deleted(cs: Seq<Planned>) -> Seq<bool> {
    Seq::new(cs.len(), |i: int| cs[i] is Delete)
}

fn copy_observation(c: &ConsolidatedObservation) -> (r: ConsolidatedObservation)
    ensures
        r@ == c@,
{
    ConsolidatedObservation {
        id: copy_opt(&c.id),
        text: c.text.clone(),
        source_memory_ids: copy_strings(&c.source_memory_ids),
        tags: copy_strings(&c.tags),
    }
}

#[derive(Debug)]
pub struct ConsolidationEngine {
    pub config: ConsolidationConfig,
    pub last_consolidation: Option<Timestamp>,
}

impl ConsolidationEngine {
    pub fn new(config: ConsolidationConfig) -> (r: ConsolidationEngine)
        ensures
            r.config == config,
            r.last_consolidation is None,
    {
        ConsolidationEngine { config, last_consolidation: None }
    }

    pub fn config(&self) -> (r: &ConsolidationConfig)
        ensures
            *r == self.config,
    {
        &self.config
    }

    pub fn last_consolidation(&self) -> (r: Option<Timestamp>)
        ensures
            r == self.last_consolidation,
    {
        self.last_consolidation
    }

    pub fn should_consolidate(&self, memory_count: usize) -> (r: bool)
        ensures
            r == (memory_count >= self.config.max_memories),
    {
        memory_count >= self.config.max_memories
    }

    fn keep_pending(out: Vec<MemoryUnit>, units: &Vec<MemoryUnit>) -> (r: Vec<MemoryUnit>)
        requires
            units_wf(out@),
            units_wf(units@),
        ensures
            units_wf(r@),
            unit_views(r@) == unit_views(out@) + pending_units(unit_views(units@)),
    {
        let mut res: Vec<MemoryUnit> = out;
        let ghost base = unit_views(res@);
        let ghost uv = unit_views(units@);
        let ghost p = |u: Unit| pending(u);
        proof {
            reveal(Seq::filter);
            assert(base + uv.take(0).filter(p) =~= base);
        }
        for i in 0..units.len()
            invariant
                units_wf(res@),
                units_wf(units@),
                uv == unit_views(units@),
                p == (|u: Unit| pending(u)),
                unit_views(res@) == base + uv.take(i as int).filter(p),
        {
            proof {
                reveal(Seq::filter);
                assert(uv.take(i + 1).drop_last() =~= uv.take(i as int));
                assert(uv.take(i + 1).last() == units@[i as int]@);
                assert(units@[i as int].wf());
            }
            if !units[i].metadata.contains_key("consolidated_at") {
                let u: MemoryUnit = units[i].clone();
                let ghost before = res@;
                res.push(u);
                proof {
                    assert(unit_views(res@) =~= unit_views(before).push(u@));
                    assert(unit_views(res@) =~= base + uv.take(i + 1).filter(p));
                }
            }
        }
        proof {
            assert(uv.take(uv.len() as int) =~= uv);
        }
        res
    }

    /// The memories to consolidate: first the facts about the world, then
    /// the experiences, each as far as it was not consolidated before.
    pub fn select_sources(
        &self,
        world: &Vec<MemoryUnit>,
        experience: &Vec<MemoryUnit>,
    ) -> (r: Vec<MemoryUnit>)
        requires
            units_wf(world@),
            units_wf(experience@),
        ensures
            units_wf(r@),
            unit_views(r@) == sources_of(unit_views(world@), unit_views(experience@)),
    {
        let empty: Vec<MemoryUnit> = Vec::new();
        proof {
            assert(unit_views(empty@) + pending_units(unit_views(world@)) =~= pending_units(
                unit_views(world@),
            ));
        }
        let a: Vec<MemoryUnit> = ConsolidationEngine::keep_pending(empty, world);
        ConsolidationEngine::keep_pending(a, experience)
    }

    /// The request that finds the observations related to some sources.
    pub fn related_request(&self, sources: &Vec<MemoryUnit>) -> (r: RecallRequest)
        ensures
            r.query@ == joined(unit_texts(unit_views(sources@)), "\n"@),
            r.fact_types@ == seq![FactType::Observation],
            r.tags@.len() == 0,
            r.tag_match == TagMatch::Any,
            r.budget == Budget::High,
            r.max_tokens is None,
    {
        let mut types: Vec<FactType> = Vec::new();
        types.push(FactType::Observation);
        proof {
            assert(types@ =~= seq![FactType::Observation]);
        }
        RecallRequest {
            query: self.merged_query(sources),
            fact_types: types,
            tags: Vec::new(),
            tag_match: TagMatch::Any,
            budget: Budget::High,
            max_tokens: None,
        }
    }

    /// The query that finds observations related to the sources.
    pub fn merged_query(&self, sources: &Vec<MemoryUnit>) -> (r: String)
        ensures
            r@ == joined(unit_texts(unit_views(sources@)), "\n"@),
    {
        let mut texts: Vec<String> = Vec::new();
        let ghost uv = unit_views(sources@);
        proof {
            assert(views(texts@) =~= unit_texts(uv.take(0)));
        }
        for i in 0..sources.len()
            invariant
                uv == unit_views(sources@),
                views(texts@) == unit_texts(uv.take(i as int)),
        {
            let t: String = sources[i].text.clone();
            proof {
                lemma_views_push(texts@, t);
                assert(unit_texts(uv.take(i + 1)) =~= unit_texts(uv.take(i as int)).push(t@));
            }
            texts.push(t);
        }
        proof {
            assert(uv.take(uv.len() as int) =~= uv);
        }
        join(&texts, "\n")
    }

    /// The identifiers and texts of some units, as a model is given them.
    pub fn pairs(&self, units: &Vec<MemoryUnit>) -> (r: Vec<(String, String)>)
        ensures
            pair_views(r@) == unit_pairs(unit_views(units@)),
    {
        let mut out: Vec<(String, String)> = Vec::new();
        let ghost uv = unit_views(units@);
        for i in 0..units.len()
            invariant
                uv == unit_views(units@),
                pair_views(out@) == unit_pairs(uv.take(i as int)),
        {
            let ghost before = out@;
            out.push((units[i].id.clone(), units[i].text.clone()));
            proof {
                assert(pair_views(out@) =~= pair_views(before).push((uv[i as int].id, uv[i as int].text)));
                assert(unit_pairs(uv.take(i + 1)) =~= unit_pairs(uv.take(i as int)).push(
                    (uv[i as int].id, uv[i as int].text),
                ));
            }
        }
        proof {
            assert(uv.take(uv.len() as int) =~= uv);
        }
        out
    }

    /// Whether a decision is the model's: it decided something, or it is no
    /// placeholder. Else the memories are grouped by similarity.
    pub fn is_usable(&self, decision: &ConsolidationDecision, provider_name: &str) -> (r: bool)
        ensures
            r == (!decision.is_empty_decision() || provider_name@ != "noop"@),
    {
        decision.creates.len() > 0 || decision.updates.len() > 0 || decision.deletes.len() > 0
            || !same(provider_name, "noop")
    }

    /// Groups the sources by similarity and creates one observation for each
    /// group of at least two. `similarity` holds that of each source to each
    /// other, in billionths.
    pub fn fallback_decision(
        &self,
        sources: &Vec<MemoryUnit>,
        similarity: &Vec<Vec<i64>>,
    ) -> (r: ConsolidationDecision)
        requires
            similarity@.len() == sources@.len(),
            forall|i: int|
                0 <= i < similarity@.len() ==> (#[trigger] similarity@[i])@.len() == sources@.len(),
        ensures
            ({
                let groups = similar_groups(
                    table(similarity@),
                    sources@.len(),
                    self.config.fallback_similarity_threshold,
                );
                &&& consolidated_views(r.creates@) == group_observations(
                    unit_views(sources@),
                    groups,
                    groups.len(),
                )
                &&& r.updates@.len() == 0
                &&& r.deletes@.len() == 0
            }),
    {
        let th: i64 = self.config.fallback_similarity_threshold;
        let ghost sims = table(similarity@);
        let ghost us = unit_views(sources@);
        let n: usize = sources.len();
        let mut clusters: Vec<Vec<usize>> = Vec::new();
        proof {
            assert(member_lists(clusters@) =~= seq![]);
        }
        for j in 0..n
            invariant
                n == sources@.len(),
                n == similarity@.len(),
                sims == table(similarity@),
                forall|i: int| 0 <= i < n ==> (#[trigger] similarity@[i])@.len() == n,
                member_lists(clusters@) == similar_groups(sims, j as nat, th),
        {
            let ghost before = member_lists(clusters@);
            proof {
                lemma_groups(sims, j as nat, th);
            }
            let mut g: usize = 0;
            let m: usize = clusters.len();
            while g < m
                invariant_except_break
                    joining(before, g as nat, sims, j as int, th) == g,
                invariant
                    g <= m,
                    m == clusters@.len(),
                    j < n,
                    n == similarity@.len(),
                    sims == table(similarity@),
                    forall|i: int| 0 <= i < n ==> (#[trigger] similarity@[i])@.len() == n,
                    before == member_lists(clusters@),
                    forall|c: int| 0 <= c < before.len() ==> (#[trigger] before[c]).len() > 0,
                    forall|c: int, p: int|
                        0 <= c < before.len() && 0 <= p < before[c].len() ==> 0
                            <= #[trigger] before[c][p] < j,
                ensures
                    g < m ==> joining(before, (g + 1) as nat, sims, j as int, th) == g,
                    g == m ==> joining(before, m as nat, sims, j as int, th) == m,
                decreases m - g,
            {
                proof {
                    assert(before[g as int].len() == clusters@[g as int]@.len());
                    assert(before[g as int][0] == clusters@[g as int]@[0] as int);
                    assert(sims[before[g as int][0]] == similarity@[before[g as int][0]]@);
                }
                let head: usize = clusters[g][0];
                if similarity[head][j] >= th {
                    break;
                }
                g = g + 1;
            }
            proof {
                if g < m {
                    lemma_joining_stays(before, (g + 1) as nat, m as nat, sims, j as int, th);
                }
            }
            if g < m {
                let ghost was = clusters@;
                let mut list: Vec<usize> = clusters.remove(g);
                list.push(j);
                clusters.insert(g, list);
                proof {
                    assert(clusters@ =~= was.update(g as int, list));
                    assert(indices(list@) =~= before[g as int].push(j as int));
                    assert(member_lists(clusters@) =~= before.update(g as int, indices(list@)));
                }
            } else {
                let mut list: Vec<usize> = Vec::new();
                list.push(j);
                clusters.push(list);
                proof {
                    assert(indices(list@) =~= seq![j as int]);
                    assert(member_lists(clusters@) =~= before.push(indices(list@)));
                }
            }
        }
        let ghost groups = member_lists(clusters@);
        proof {
            lemma_groups(sims, n as nat, th);
        }
        let mut creates: Vec<ConsolidatedObservation> = Vec::new();
        let mut texts: Vec<String> = Vec::new();
        proof {
            assert(consolidated_views(creates@) =~= seq![]);
        }
        for c in 0..clusters.len()
            invariant
                us == unit_views(sources@),
                groups == member_lists(clusters@),
                forall|c: int, p: int|
                    0 <= c < groups.len() && 0 <= p < groups[c].len() ==> 0
                        <= #[trigger] groups[c][p] < sources@.len(),
                consolidated_views(creates@) == group_observations(us, groups, c as nat),
                texts@.len() == creates@.len(),
                forall|i: int| 0 <= i < texts@.len() ==> (#[trigger] texts@[i])@ == creates@[i]@.text,
        {
            let ghost before = consolidated_views(creates@);
            proof {
                assert(groups[c as int] == indices(clusters@[c as int]@));
                assert forall|i: int| 0 <= i < clusters@[c as int]@.len() implies
                    #[trigger] clusters@[c as int]@[i] < sources@.len() by {
                    assert(groups[c as int][i] == clusters@[c as int]@[i] as int);
                }
            }
            if clusters[c].len() >= 2 {
                let o: ConsolidatedObservation = observe(sources, &clusters[c]);
                let seen: bool = has_string(&texts, o.text.as_str());
                proof {
                    if seen {
                        let i = choose|i: int|
                            0 <= i < views(texts@).len() && views(texts@)[i] == o@.text;
                        assert(texts@[i]@ == creates@[i]@.text);
                        assert(before[i].text == o@.text);
                    }
                    if has_text(before, o@.text) {
                        let i = choose|i: int|
                            0 <= i < before.len() && (#[trigger] before[i]).text == o@.text;
                        assert(views(texts@)[i] == o@.text) by {
                            assert(texts@[i]@ == creates@[i]@.text);
                        }
                    }
                    assert(seen == has_text(before, o@.text));
                }
                if !seen {
                    let t: String = o.text.clone();
                    texts.push(t);
                    proof {
                        assert(consolidated_views(creates@.push(o)) =~= before.push(o@));
                    }
                    creates.push(o);
                }
            }
        }
        ConsolidationDecision { creates, updates: Vec::new(), deletes: Vec::new() }
    }

    /// What is to be done: what the model decided where that is usable, else
    /// what the grouping decides.
    pub fn settle(
        &self,
        decided: ConsolidationDecision,
        provider_name: &str,
        sources: &Vec<MemoryUnit>,
        similarity: &Vec<Vec<i64>>,
    ) -> (r: ConsolidationDecision)
        requires
            similarity@.len() == sources@.len(),
            forall|i: int|
                0 <= i < similarity@.len() ==> (#[trigger] similarity@[i])@.len() == sources@.len(),
        ensures
            !decided.is_empty_decision() || provider_name@ != "noop"@ ==> r == decided,
            decided.is_empty_decision() && provider_name@ == "noop"@ ==> {
                let groups = similar_groups(
                    table(similarity@),
                    sources@.len(),
                    self.config.fallback_similarity_threshold,
                );
                &&& consolidated_views(r.creates@) == group_observations(
                    unit_views(sources@),
                    groups,
                    groups.len(),
                )
                &&& r.updates@.len() == 0
                &&& r.deletes@.len() == 0
            },
    {
        if self.is_usable(&decided, provider_name) {
            decided
        } else {
            self.fallback_decision(sources, similarity)
        }
    }

    /// The changes to make, in order.
    pub fn changes(&self, decision: &ConsolidationDecision, sources: &Vec<MemoryUnit>) -> (r: Vec<
        Change,
    >)
        requires
            units_wf(sources@),
        ensures
            change_views(r@) == planned_changes(
                consolidated_views(decision.creates@),
                consolidated_views(decision.updates@),
                views(decision.deletes@),
                unit_views(sources@),
            ),
            forall|i: int|
                0 <= i < r@.len() ==> ((#[trigger] r@[i]) matches Change::Mark(u) ==> u.wf()),
    {
        let ghost cv = consolidated_views(decision.creates@);
        let ghost uv = consolidated_views(decision.updates@);
        let ghost dv = views(decision.deletes@);
        let ghost sv = unit_views(sources@);
        let ghost fc = |c: Consolidated| Planned::Create(c);
        let ghost fd = |id: Seq<char>| Planned::Delete(id);
        let ghost fm = |u: Unit| Planned::Mark(u);
        let mut out: Vec<Change> = Vec::new();
        proof {
            assert(change_views(out@) =~= cv.take(0).map_values(fc));
        }
        for i in 0..decision.creates.len()
            invariant
                cv == consolidated_views(decision.creates@),
                fc == (|c: Consolidated| Planned::Create(c)),
                change_views(out@) == cv.take(i as int).map_values(fc),
                forall|k: int| 0 <= k < out@.len() ==> !((#[trigger] out@[k]) is Mark),
        {
            let x = Change::Create(copy_observation(&decision.creates[i]));
            proof {
                assert(change_views(out@.push(x)) =~= change_views(out@).push(x@));
                assert(cv.take(i + 1).map_values(fc) =~= cv.take(i as int).map_values(fc).push(
                    fc(cv[i as int]),
                ));
            }
            out.push(x);
        }
        let ghost a = change_views(out@);
        proof {
            assert(cv.take(cv.len() as int) =~= cv);
            assert(a =~= a + planned_updates(uv.take(0)));
        }
        for i in 0..decision.updates.len()
            invariant
                uv == consolidated_views(decision.updates@),
                change_views(out@) == a + planned_updates(uv.take(i as int)),
                forall|k: int| 0 <= k < out@.len() ==> !((#[trigger] out@[k]) is Mark),
        {
            let u: &ConsolidatedObservation = &decision.updates[i];
            proof {
                assert(uv.take(i + 1).drop_last() =~= uv.take(i as int));
                assert(uv.take(i + 1).last() == u@);
            }
            match &u.id {
                Some(id) => {
                    let x = Change::Update(id.clone(), copy_observation(u));
                    proof {
                        assert(change_views(out@.push(x)) =~= change_views(out@).push(x@));
                        assert((a + planned_updates(uv.take(i as int))).push(x@) =~= a
                            + planned_updates(uv.take(i as int)).push(x@));
                    }
                    out.push(x);
                },
                None => {},
            }
        }
        let ghost b = change_views(out@);
        proof {
            assert(uv.take(uv.len() as int) =~= uv);
            assert(b =~= b + dv.take(0).map_values(fd));
        }
        for i in 0..decision.deletes.len()
            invariant
                dv == views(decision.deletes@),
                fd == (|id: Seq<char>| Planned::Delete(id)),
                change_views(out@) == b + dv.take(i as int).map_values(fd),
                forall|k: int| 0 <= k < out@.len() ==> !((#[trigger] out@[k]) is Mark),
        {
            let x = Change::Delete(decision.deletes[i].clone());
            proof {
                assert(change_views(out@.push(x)) =~= change_views(out@).push(x@));
                assert(b + dv.take(i + 1).map_values(fd) =~= (b + dv.take(i as int).map_values(
                    fd,
                )).push(fd(dv[i as int])));
            }
            out.push(x);
        }
        let ghost c = change_views(out@);
        proof {
            assert(dv.take(dv.len() as int) =~= dv);
            assert(c =~= c + sv.take(0).map_values(fm));
        }
        for i in 0..sources.len()
            invariant
                units_wf(sources@),
                sv == unit_views(sources@),
                fm == (|u: Unit| Planned::Mark(u)),
                change_views(out@) == c + sv.take(i as int).map_values(fm),
                forall|k: int|
                    0 <= k < out@.len() ==> ((#[trigger] out@[k]) matches Change::Mark(u)
                        ==> u.wf()),
        {
            let u: MemoryUnit = sources[i].clone();
            let x = Change::Mark(u);
            proof {
                assert(change_views(out@.push(x)) =~= change_views(out@).push(x@));
                assert(c + sv.take(i + 1).map_values(fm) =~= (c + sv.take(i as int).map_values(
                    fm,
                )).push(fm(sv[i as int])));
            }
            out.push(x);
        }
        proof {
            assert(sv.take(sv.len() as int) =~= sv);
        }
        out
    }

    /// The unit of a new observation as of now.
    pub fn create_unit(
        &self,
        bank_id: &str,
        c: &ConsolidatedObservation,
        embedding: Vec<u32>,
    ) -> (r: MemoryUnit)
        ensures
            r.wf(),
            r@ == created_unit(bank_id@, c@, embedding@, r@.id, r@.created_at),
            r@.id.len() == 36,
    {
        let t: Timestamp = now();
        let mut unit: MemoryUnit = MemoryUnit::new_at(
            bank_id,
            c.text.as_str(),
            FactType::Observation,
            fresh_id(),
            t,
        );
        unit.tags = copy_strings(&c.tags);
        unit.source_memory_ids = copy_strings(&c.source_memory_ids);
        proof {
            assert(views(c.source_memory_ids@).len() == c.source_memory_ids@.len());
        }
        unit.proof_count = if c.source_memory_ids.len() > 1 {
            (c.source_memory_ids.len() as u64 % 0x1_0000_0000) as u32
        } else {
            1
        };
        unit.embedding = embedding;
        let e = ObservationHistoryEntry { at: t, action: owned("create"), note: None };
        let mut history: Vec<ObservationHistoryEntry> = Vec::new();
        history.push(e);
        proof {
            assert(revision_views(history@) =~= seq![
                Revision { at: t, action: "create"@, note: None },
            ]);
        }
        unit.history = history;
        unit
    }

    /// An observation after an update as of a given time.
    pub fn update_unit(
        &self,
        existing: MemoryUnit,
        u: &ConsolidatedObservation,
        embedding: Vec<u32>,
        t: Timestamp,
    ) -> (r: MemoryUnit)
        requires
            existing.wf(),
        ensures
            r.wf(),
            r@ == updated_unit(existing@, u@, embedding@, t),
    {
        let mut e: MemoryUnit = existing;
        e.text = u.text.clone();
        let ids: Vec<String> = e.source_memory_ids;
        e.source_memory_ids = merge_tags(ids, &u.source_memory_ids);
        proof {
            assert(views(e.source_memory_ids@).len() == e.source_memory_ids@.len());
            assert(views(u.tags@).len() == u.tags@.len());
        }
        e.proof_count = (e.source_memory_ids.len() as u64 % 0x1_0000_0000) as u32;
        if u.tags.len() > 0 {
            e.tags = copy_strings(&u.tags);
        }
        let h = ObservationHistoryEntry { at: t, action: owned("update"), note: None };
        let ghost before = e.history@;
        e.history.push(h);
        proof {
            assert(revision_views(e.history@) =~= revision_views(before).push(h@));
        }
        e.embedding = embedding;
        e
    }

    /// A source after it was consolidated at a given time.
    pub fn mark_unit(&self, unit: MemoryUnit, t: Timestamp) -> (r: MemoryUnit)
        requires
            unit.wf(),
        ensures
            r.wf(),
            r@ == marked_unit(unit@, t),
    {
        let mut u: MemoryUnit = unit;
        u.metadata.insert("consolidated_at", to_rfc3339(t));
        u
    }

    /// Begins a run: finds the memories to consolidate, or ends the run where
    /// there are none.
    pub fn begin(
        &mut self,
        memories: usize,
        world: &Vec<MemoryUnit>,
        experience: &Vec<MemoryUnit>,
        duration_ms: u64,
        t: Timestamp,
    ) -> (r: Start)
        requires
            units_wf(world@),
            units_wf(experience@),
        ensures
            ({
                let idle = idle_result(
                    unit_views(world@),
                    unit_views(experience@),
                    memories,
                    duration_ms,
                    t,
                );
                match r {
                    Start::Idle(x) => {
                        &&& idle == Some(x)
                        &&& final(self).config == old(self).config
                        &&& final(self).last_consolidation == Some(t)
                    },
                    Start::Work(v) => {
                        &&& idle is None
                        &&& units_wf(v@)
                        &&& unit_views(v@) == sources_of(unit_views(world@), unit_views(experience@))
                        &&& *final(self) == *old(self)
                    },
                }
            }),
    {
        let sources: Vec<MemoryUnit> = self.select_sources(world, experience);
        proof {
            assert(unit_views(sources@).len() == sources@.len());
        }
        if sources.len() == 0 {
            Start::Idle(self.finish_idle(memories, duration_ms, t))
        } else {
            Start::Work(sources)
        }
    }

    /// Ends a run that found nothing to consolidate.
    pub fn finish_idle(&mut self, memories: usize, duration_ms: u64, t: Timestamp) -> (r:
        ConsolidationResult)
        ensures
            final(self).config == old(self).config,
            final(self).last_consolidation == Some(t),
            r == (ConsolidationResult {
                memories_before: memories,
                memories_after: memories,
                observations_created: 0,
                observations_updated: 0,
                observations_deleted: 0,
                duration_ms,
                timestamp: t,
                used_llm: false,
            }),
    {
        self.last_consolidation = Some(t);
        ConsolidationResult {
            memories_before: memories,
            memories_after: memories,
            observations_created: 0,
            observations_updated: 0,
            observations_deleted: 0,
            duration_ms,
            timestamp: t,
            used_llm: false,
        }
    }

    /// Ends a run: counts what was created and updated, by the outcome of
    /// each change, and what was to be deleted.
    pub fn finish(
        &mut self,
        memories_before: usize,
        memories_after: usize,
        changes: &Vec<Change>,
        done: &Vec<bool>,
        provider_name: &str,
        duration_ms: u64,
        t: Timestamp,
    ) -> (r: ConsolidationResult)
        requires
            done@.len() == changes@.len(),
        ensures
            final(self).config == old(self).config,
            final(self).last_consolidation == Some(t),
            r.memories_before == memories_before,
            r.memories_after == memories_after,
            r.observations_created == count_set(created(change_views(changes@), done@)),
            r.observations_updated == count_set(updated(change_views(changes@), done@)),
            r.observations_deleted == count_set(deleted(change_views(changes@))),
            r.duration_ms == duration_ms,
            r.timestamp == t,
            r.used_llm == (provider_name@ != "noop"@),
    {
        let ghost cs = change_views(changes@);
        let ghost mc = created(cs, done@);
        let ghost mu = updated(cs, done@);
        let ghost md = deleted(cs);
        let mut c: usize = 0;
        let mut u: usize = 0;
        let mut d: usize = 0;
        for i in 0..changes.len()
            invariant
                done@.len() == changes@.len(),
                cs == change_views(changes@),
                mc == created(cs, done@),
                mu == updated(cs, done@),
                md == deleted(cs),
                c <= i,
                u <= i,
                d <= i,
                c == count_set(mc.take(i as int)),
                u == count_set(mu.take(i as int)),
                d == count_set(md.take(i as int)),
        {
            proof {
                assert(mc.take(i + 1).drop_last() =~= mc.take(i as int));
                assert(mu.take(i + 1).drop_last() =~= mu.take(i as int));
                assert(md.take(i + 1).drop_last() =~= md.take(i as int));
                assert(cs[i as int] == changes@[i as int]@);
            }
            match &changes[i] {
                Change::Create(_) => {
                    if done[i] {
                        c = c + 1;
                    }
                },
                Change::Update(_, _) => {
                    if done[i] {
                        u = u + 1;
                    }
                },
                Change::Delete(_) => {
                    d = d + 1;
                },
                Change::Mark(_) => {},
            }
        }
        proof {
            assert(mc.take(mc.len() as int) =~= mc);
            assert(mu.take(mu.len() as int) =~= mu);
            assert(md.take(md.len() as int) =~= md);
        }
        self.last_consolidation = Some(t);
        ConsolidationResult {
            memories_before,
            memories_after,
            observations_created: c,
            observations_updated: u,
            observations_deleted: d,
            duration_ms,
            timestamp: t,
            used_llm: !same(provider_name, "noop"),
        }
    }
}

proof fn lemma_joining_stays(
    groups: Seq<Seq<int>>,
    k: nat,
    n: nat,
    sims: Seq<Seq<i64>>,
    j: int,
    thresh: i64,
)
    requires
        k <= n,
        joining(groups, k, sims, j, thresh) < k,
    ensures
        joining(groups, n, sims, j, thresh) == joining(groups, k, sims, j, thresh),
    decreases n - k,
{
    if k < n {
        lemma_joining_stays(groups, k, (n - 1) as nat, sims, j, thresh);
    }
}

/// A run takes up just the memories it sees that were not consolidated
/// before.
pub proof fn law_sources_are_the_pending(world: Seq<Unit>, experience: Seq<Unit>, u: Unit)
    ensures
        sources_of(world, experience).contains(u) <==> (world.contains(u) || experience.contains(u))
            && !u.metadata.dom().contains("consolidated_at"@),
{
    let good = |u: Unit| pending(u);
    let a = pending_units(world);
    let b = pending_units(experience);
    let s = sources_of(world, experience);
    if s.contains(u) {
        let i = choose|i: int| 0 <= i < s.len() && s[i] == u;
        if i < a.len() {
            world.lemma_filter_pred(good, i);
            assert(a.contains(a[i]));
            world.lemma_filter_contains_rev(good, u);
        } else {
            experience.lemma_filter_pred(good, i - a.len());
            assert(b.contains(b[i - a.len()]));
            experience.lemma_filter_contains_rev(good, u);
        }
    }
    if world.contains(u) && pending(u) {
        let i = choose|i: int| 0 <= i < world.len() && world[i] == u;
        world.lemma_filter_contains(good, i);
        let z = choose|z: int| 0 <= z < a.len() && a[z] == u;
        assert(s[z] == u);
    }
    if experience.contains(u) && pending(u) {
        let i = choose|i: int| 0 <= i < experience.len() && experience[i] == u;
        experience.lemma_filter_contains(good, i);
        let z = choose|z: int| 0 <= z < b.len() && b[z] == u;
        assert(s[a.len() + z] == u);
    }
}

/// A new observation says what was decided, names the memories it rests on
/// and counts them, and its history begins with its creation.
pub proof fn law_created_observation(
    bank_id: Seq<char>,
    c: Consolidated,
    embedding: Seq<u32>,
    id: Seq<char>,
    t: Timestamp,
)
    ensures
        ({
            let u = created_unit(bank_id, c, embedding, id, t);
            &&& u.fact_type == FactType::Observation
            &&& u.bank_id == bank_id
            &&& u.id == id
            &&& u.text == c.text
            &&& u.tags == c.tags
            &&& u.embedding == embedding
            &&& u.source_memory_ids == c.source_memory_ids
            &&& 1 <= c.source_memory_ids.len() <= u32::MAX ==> u.proof_count
                == c.source_memory_ids.len()
            &&& c.source_memory_ids.len() == 0 ==> u.proof_count == 1
            &&& u.history.len() == 1 && u.history[0].action == "create"@ && u.history[0].at == t
        }),
{
}

/// An update replaces the text, adds the memories that are new to those the
/// observation rests on and counts them all, keeps the tags where none are
/// given, and adds to the history; identity, bank and creation stay.
pub proof fn law_updated_observation(
    e: Unit,
    c: Consolidated,
    embedding: Seq<u32>,
    t: Timestamp,
    source: Seq<char>,
)
    ensures
        ({
            let u = updated_unit(e, c, embedding, t);
            &&& u.text == c.text
            &&& u.embedding == embedding
            &&& u.source_memory_ids.contains(source) <==> e.source_memory_ids.contains(source)
                || c.source_memory_ids.contains(source)
            &&& u.source_memory_ids.len() <= u32::MAX ==> u.proof_count
                == u.source_memory_ids.len()
            &&& c.tags.len() > 0 ==> u.tags == c.tags
            &&& c.tags.len() == 0 ==> u.tags == e.tags
            &&& u.history.len() == e.history.len() + 1
            &&& u.history.drop_last() == e.history
            &&& u.history.last().action == "update"@
            &&& u.history.last().at == t
            &&& u.id == e.id
            &&& u.bank_id == e.bank_id
            &&& u.fact_type == e.fact_type
            &&& u.created_at == e.created_at
        }),
{
    law_merged_tags(e.source_memory_ids, c.source_memory_ids);
}

/// Marking a memory as consolidated changes nothing else of it.
pub proof fn law_marking_keeps_the_memory(u: Unit, t: Timestamp)
    ensures
        ({
            let m = marked_unit(u, t);
            &&& m.metadata.contains_pair("consolidated_at"@, rfc3339_text(t))
            &&& m.metadata.remove("consolidated_at"@) == u.metadata.remove("consolidated_at"@)
            &&& m.text == u.text
            &&& m.id == u.id
            &&& m.tags == u.tags
            &&& m.fact_type == u.fact_type
            &&& m.embedding == u.embedding
        }),
{
    assert(marked_unit(u, t).metadata.remove("consolidated_at"@) =~= u.metadata.remove(
        "consolidated_at"@,
    ));
}

proof fn lemma_update_planned(us: Seq<Consolidated>, i: int)
    requires
        0 <= i < us.len(),
        us[i].id is Some,
    ensures
        planned_updates(us).contains(Planned::Update(us[i].id->0, us[i])),
    decreases us.len(),
{
    let p = Planned::Update(us[i].id->0, us[i]);
    let r = planned_updates(us);
    if i == us.len() - 1 {
        assert(r[r.len() - 1] == p);
    } else {
        lemma_update_planned(us.drop_last(), i);
        let b = planned_updates(us.drop_last());
        let k = choose|k: int| 0 <= k < b.len() && b[k] == p;
        assert(r[k] == p);
    }
}

/// Everything that was decided is done: each creation, each update that
/// names an observation, each deletion.
pub proof fn law_decisions_are_carried_out(
    creates: Seq<Consolidated>,
    updates: Seq<Consolidated>,
    deletes: Seq<Seq<char>>,
    sources: Seq<Unit>,
)
    ensures
        ({
            let r = planned_changes(creates, updates, deletes, sources);
            &&& forall|i: int|
                0 <= i < creates.len() ==> r.contains(Planned::Create(#[trigger] creates[i]))
            &&& forall|i: int|
                0 <= i < updates.len() && (#[trigger] updates[i]).id is Some ==> r.contains(
                    Planned::Update(updates[i].id->0, updates[i]),
                )
            &&& forall|i: int|
                0 <= i < deletes.len() ==> r.contains(Planned::Delete(#[trigger] deletes[i]))
        }),
{
    let a = creates.map_values(|c: Consolidated| Planned::Create(c));
    let b = planned_updates(updates);
    let c = deletes.map_values(|id: Seq<char>| Planned::Delete(id));
    let r = planned_changes(creates, updates, deletes, sources);
    assert forall|i: int| 0 <= i < creates.len() implies r.contains(
        Planned::Create(#[trigger] creates[i]),
    ) by {
        assert(r[i] == a[i]);
    }
    assert forall|i: int| 0 <= i < updates.len() && (#[trigger] updates[i]).id is Some implies r.contains(
        Planned::Update(updates[i].id->0, updates[i]),
    ) by {
        lemma_update_planned(updates, i);
        let p = Planned::Update(updates[i].id->0, updates[i]);
        let k = choose|k: int| 0 <= k < b.len() && b[k] == p;
        assert(r[a.len() + k] == p);
    }
    assert forall|i: int| 0 <= i < deletes.len() implies r.contains(
        Planned::Delete(#[trigger] deletes[i]),
    ) by {
        assert(r[a.len() + b.len() + i] == c[i]);
    }
}

/// A change more is counted under its own kind, and a creation or an update
/// only if it succeeded.
pub proof fn law_changes_are_counted(cs: Seq<Planned>, done: Seq<bool>, c: Planned, ok: bool)
    requires
        done.len() == cs.len(),
    ensures
        count_set(created(cs.push(c), done.push(ok))) == count_set(created(cs, done)) + (
        if c is Create && ok {
            1nat
        } else {
            0nat
        }),
        count_set(updated(cs.push(c), done.push(ok))) == count_set(updated(cs, done)) + (
        if c is Update && ok {
            1nat
        } else {
            0nat
        }),
        count_set(deleted(cs.push(c))) == count_set(deleted(cs)) + (if c is Delete {
            1nat
        } else {
            0nat
        }),
        count_set(created(seq![], seq![])) == 0,
        count_set(updated(seq![], seq![])) == 0,
        count_set(deleted(seq![])) == 0,
{
    assert(created(cs.push(c), done.push(ok)).drop_last() =~= created(cs, done));
    assert(updated(cs.push(c), done.push(ok)).drop_last() =~= updated(cs, done));
    assert(deleted(cs.push(c)).drop_last() =~= deleted(cs));
}

} // verus!
