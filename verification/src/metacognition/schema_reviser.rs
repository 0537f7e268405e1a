//! Schema revision: groups recent failures by the words they share and
//! proposes a new competence dimension or a new proposition for each large
//! enough group.
use crate::ambient::now_millis;
use crate::fixed::ONE;
use crate::metacognition::self_belief::{has_dim, BetaParam, SelfBelief};
use crate::metacognition::self_model_store::{
    lemma_prop_index, lemma_tag_words_finite, prop_words, proposition_words, room_for, with_added,
    SelfModelStore,
};
use crate::metacognition::self_proposition::{fresh_proposition, Proposition, SelfProposition};
use crate::order::{
    descending, descending_order, indices, ints, law_descending, law_descending_is_complete,
    law_lex_sorted, lex_sorted, sort_strings,
};
use crate::text::{
    begins, copy_strings, dec, fmt_u64, join, joined, lemma_shows, lemma_shows_itself,
    lemma_views_push, owned, same, shows, views,
};
use crate::window::{at_most, drop_oldest, keep_last};
use crate::words::{
    distinct, jaccard, law_distinct_drops_repetitions, law_overlap, split_words, words, WordSet,
};
use vstd::prelude::*;

verus! {

#[derive(Debug, Clone)]
pub struct FailureEvent {
    /// Milliseconds since the Unix epoch; filled in on insertion where zero.
    pub ts: i64,
    pub tool: String,
    pub description: String,
    /// Optional coarse task category.
    pub task_type: String,
}

/// A failure as a mathematical value.
pub struct Failure {
    pub ts: i64,
    pub tool: Seq<char>,
    pub description: Seq<char>,
    pub task_type: Seq<char>,
}

impl View for FailureEvent {
    type V = Failure;

    open spec fn view(&self) -> Failure {
        Failure {
            ts: self.ts,
            tool: self.tool@,
            description: self.description@,
            task_type: self.task_type@,
        }
    }
}

impl Default for FailureEvent {
    fn default() -> (r: FailureEvent)
        ensures
            r@ == (Failure {
                ts: 0,
                tool: Seq::empty(),
                description: Seq::empty(),
                task_type: Seq::empty(),
            }),
    {
        FailureEvent {
            ts: 0,
            tool: String::new(),
            description: String::new(),
            task_type: String::new(),
        }
    }
}

#[derive(Debug, Clone, Copy, PartialEq, Eq, Structural)]
pub enum ProposalKind {
    AddDimension,
    AddProposition,
}

/// The name of a kind, as it is shown in diagnostics.
pub open spec fn kind_name(k: ProposalKind) -> Seq<char> {
    match k {
        ProposalKind::AddDimension => "AddDimension"@,
        ProposalKind::AddProposition => "AddProposition"@,
    }
}

impl ProposalKind {
    pub fn name(&self) -> (r: &'static str)
        ensures
            r@ == kind_name(*self),
    {
        match self {
            ProposalKind::AddDimension => "AddDimension",
            ProposalKind::AddProposition => "AddProposition",
        }
    }
}

#[derive(Debug, Clone)]
pub struct SchemaProposal {
    pub kind: ProposalKind,
    /// Dimension name or proposition text.
    pub name_or_text: String,
    pub tags: Vec<String>,
    pub rationale: String,
    pub evidence_count: i32,
    /// In billionths.
    pub novelty: u64,
}

/// A proposal as a mathematical value.
pub struct Proposal {
    pub kind: ProposalKind,
    pub name_or_text: Seq<char>,
    pub tags: Seq<Seq<char>>,
    pub rationale: Seq<char>,
    pub evidence_count: i32,
    pub novelty: u64,
}

impl View for SchemaProposal {
    type V = Proposal;

    open spec fn view(&self) -> Proposal {
        Proposal {
            kind: self.kind,
            name_or_text: self.name_or_text@,
            tags: views(self.tags@),
            rationale: self.rationale@,
            evidence_count: self.evidence_count,
            novelty: self.novelty,
        }
    }
}

/// The views of a sequence of proposals.
pub open spec fn proposal_views(s: Seq<SchemaProposal>) -> Seq<Proposal> {
    s.map_values(|p: SchemaProposal| p@)
}

#[derive(Debug, Clone, Copy)]
pub struct ReviserConfig {
    pub min_evidence_count: usize,
    pub review_every_n_episodes: usize,
    /// In billionths.
    pub cluster_jaccard_thresh: u64,
    /// In billionths.
    pub novelty_threshold: u64,
    pub max_failures_buffer: usize,
}

/// The default configuration.
pub open spec fn default_reviser_config() -> ReviserConfig {
    ReviserConfig {
        min_evidence_count: 3,
        review_every_n_episodes: 5,
        cluster_jaccard_thresh: 350_000_000,
        novelty_threshold: 600_000_000,
        max_failures_buffer: 200,
    }
}

impl Default for ReviserConfig {
    fn default() -> (r: ReviserConfig)
        ensures
            r == default_reviser_config(),
    {
        ReviserConfig {
            min_evidence_count: 3,
            review_every_n_episodes: 5,
            cluster_jaccard_thresh: 350_000_000,
            novelty_threshold: 600_000_000,
            max_failures_buffer: 200,
        }
    }
}

#[derive(Debug)]
pub struct SchemaReviser {
    pub cfg: ReviserConfig,
    pub failures: Vec<FailureEvent>,
    pub episode_count: i32,
    pub last_review_episode: i32,
}

/// What a reviser knows, as a mathematical value.
pub struct ReviserState {
    pub cfg: ReviserConfig,
    pub failures: Seq<Failure>,
    pub episode_count: i32,
    pub last_review_episode: i32,
}

/// The views of a sequence of failures.
pub open spec fn failure_views(s: Seq<FailureEvent>) -> Seq<Failure> {
    s.map_values(|f: FailureEvent| f@)
}

impl View for SchemaReviser {
    type V = ReviserState;

    open spec fn view(&self) -> ReviserState {
        ReviserState {
            cfg: self.cfg,
            failures: failure_views(self.failures@),
            episode_count: self.episode_count,
            last_review_episode: self.last_review_episode,
        }
    }
}

/// A reviser that has seen nothing.
pub open spec fn fresh_reviser(cfg: ReviserConfig) -> ReviserState {
    ReviserState { cfg, failures: Seq::empty(), episode_count: 0, last_review_episode: 0 }
}

/// The reviser after a failure, whose time is filled in where it is zero.
pub open spec fn after_failure_event(s: ReviserState, f: Failure, now_ms: i64) -> ReviserState {
    let g = Failure {
        ts: if f.ts == 0 {
            now_ms
        } else {
            f.ts
        },
        ..f
    };
    ReviserState {
        failures: keep_last(s.failures.push(g), s.cfg.max_failures_buffer as nat),
        ..s
    }
}

/// Whether enough failures and enough episodes have gathered for a review.
pub open spec fn review_due(s: ReviserState) -> bool {
    s.failures.len() >= s.cfg.min_evidence_count && s.episode_count - s.last_review_episode
        >= s.cfg.review_every_n_episodes
}

/// The words of a failure, with repetitions.
pub open spec fn failure_words(f: Failure) -> Seq<Seq<char>> {
    words(f.description + " "@ + f.tool, 3, true)
}

/// A group of failures: their positions, and the words of all of them.
pub struct Group {
    pub members: Seq<int>,
    pub centroid: Set<Seq<char>>,
}

/// The last of the first `n` groups with the largest overlap, if it reaches
/// the threshold: the overlap to reach, and the group.
pub open spec fn best_group(
    groups: Seq<Group>,
    n: nat,
    toks: Set<Seq<char>>,
    thresh: nat,
) -> (nat, Option<int>)
    decreases n,
{
    if n == 0 {
        (thresh, None)
    } else {
        let (bj, bi) = best_group(groups, (n - 1) as nat, toks, thresh);
        let j = jaccard(toks, groups[n - 1].centroid);
        if j >= bj {
            (j, Some(n - 1))
        } else {
            (bj, bi)
        }
    }
}

/// The groups after one more failure: it joins the best group, whose words
/// grow by its own, or starts a new one. A failure without words is left
/// out.
pub open spec fn grouped_one(
    groups: Seq<Group>,
    i: int,
    toks: Set<Seq<char>>,
    thresh: nat,
) -> Seq<Group> {
    if toks.len() == 0 {
        groups
    } else {
        match best_group(groups, groups.len(), toks, thresh).1 {
            Some(g) => groups.update(
                g,
                Group {
                    members: groups[g].members.push(i),
                    centroid: groups[g].centroid.union(toks),
                },
            ),
            None => groups.push(Group { members: seq![i], centroid: toks }),
        }
    }
}

/// The groups of the first `n` failures, formed in one pass.
pub open spec fn grouped(failures: Seq<Failure>, n: nat, thresh: nat) -> Seq<Group>
    decreases n,
{
    if n == 0 {
        seq![]
    } else {
        grouped_one(
            grouped(failures, (n - 1) as nat, thresh),
            n - 1,
            failure_words(failures[n - 1]).to_set(),
            thresh,
        )
    }
}

/// All words of some failures, with repetitions.
pub open spec fn member_words(failures: Seq<Failure>, members: Seq<int>) -> Seq<Seq<char>>
    decreases members.len(),
{
    if members.len() == 0 {
        seq![]
    } else {
        member_words(failures, members.drop_last()) + failure_words(failures[members.last()])
    }
}

/// How often each of some words occurs.
pub open spec fn frequencies(all: Seq<Seq<char>>, vocab: Seq<Seq<char>>) -> Seq<int> {
    vocab.map_values(|w: Seq<char>| all.to_multiset().count(w) as int)
}

/// The `k` most frequent words, most frequent first, equally frequent ones
/// in lexicographic order.
pub open spec fn top_words(all: Seq<Seq<char>>, k: nat) -> Seq<Seq<char>> {
    let vocab = lex_sorted(distinct(all));
    let freq = frequencies(all, vocab);
    at_most(descending(freq, freq.len()), k).map_values(|i: int| vocab[i])
}

/// The larger of two numbers.
pub open spec fn larger(a: nat, b: nat) -> nat {
    if a > b {
        a
    } else {
        b
    }
}

/// The largest overlap of a set of words with the name of a dimension.
pub open spec fn overlap_dims(b: Seq<(Seq<char>, BetaParam)>, kw: Set<Seq<char>>) -> nat
    decreases b.len(),
{
    if b.len() == 0 {
        0
    } else {
        larger(overlap_dims(b.drop_last(), kw), jaccard(kw, words(b.last().0, 3, true).to_set()))
    }
}

/// The largest overlap of a set of words with a proposition, but at least
/// `base`.
pub open spec fn overlap_props(s: Seq<Proposition>, kw: Set<Seq<char>>, base: nat) -> nat
    decreases s.len(),
{
    if s.len() == 0 {
        base
    } else {
        larger(
            overlap_props(s.drop_last(), kw, base),
            jaccard(kw, prop_words(s.last(), 3, true)),
        )
    }
}

/// One less the largest overlap with anything known, in billionths.
pub open spec fn novelty_of(
    keywords: Seq<Seq<char>>,
    b: Seq<(Seq<char>, BetaParam)>,
    s: Seq<Proposition>,
) -> int {
    let kw = keywords.to_set();
    ONE - overlap_props(s, kw, overlap_dims(b, kw))
}

/// The proposal for one group, if it has enough members and any words.
pub open spec fn proposal_for(
    cfg: ReviserConfig,
    failures: Seq<Failure>,
    members: Seq<int>,
    b: Seq<(Seq<char>, BetaParam)>,
    s: Seq<Proposition>,
) -> Option<Proposal> {
    let keywords = top_words(member_words(failures, members), 4);
    if members.len() < cfg.min_evidence_count || keywords.len() == 0 {
        None
    } else {
        let list = joined(keywords, ", "@);
        let known = exists|i: int|
            0 <= i < keywords.len() && has_dim(b, #[trigger] keywords[i]);
        Some(
            Proposal {
                kind: if known {
                    ProposalKind::AddProposition
                } else {
                    ProposalKind::AddDimension
                },
                name_or_text: if known {
                    "I tend to fail when the task involves "@ + list + "."@
                } else {
                    joined(at_most(keywords, 2), "_"@)
                },
                tags: keywords,
                rationale: dec(members.len()) + " failures cluster around tokens ["@ + list + "]"@,
                evidence_count: members.len() as i32,
                novelty: novelty_of(keywords, b, s) as u64,
            },
        )
    }
}

/// The proposals for the first `n` groups.
pub open spec fn proposals_for(
    cfg: ReviserConfig,
    failures: Seq<Failure>,
    groups: Seq<Group>,
    n: nat,
    b: Seq<(Seq<char>, BetaParam)>,
    s: Seq<Proposition>,
) -> Seq<Proposal>
    decreases n,
{
    if n == 0 {
        seq![]
    } else {
        let before = proposals_for(cfg, failures, groups, (n - 1) as nat, b, s);
        match proposal_for(cfg, failures, groups[n - 1].members, b, s) {
            Some(p) => before.push(p),
            None => before,
        }
    }
}

/// All proposals of a review.
pub open spec fn revisions(
    s: ReviserState,
    b: Seq<(Seq<char>, BetaParam)>,
    store: Seq<Proposition>,
) -> Seq<Proposal> {
    let groups = grouped(s.failures, s.failures.len(), s.cfg.cluster_jaccard_thresh as nat);
    proposals_for(s.cfg, s.failures, groups, groups.len(), b, store)
}

/// Whether a proposal is novel enough and has enough evidence.
pub open spec fn passes(cfg: ReviserConfig, p: Proposal) -> bool {
    p.novelty >= cfg.novelty_threshold && p.evidence_count >= cfg.min_evidence_count
}

/// The confidence of a proposition that some failures suggest: `0.4 +
/// 0.1·evidence`, at most 0.8.
pub open spec fn evidence_confidence(n: i32) -> u64 {
    if n >= 4 {
        800_000_000
    } else {
        ((4 + n) * 100_000_000) as u64
    }
}

/// The proposition that a proposal adds.
pub open spec fn proposed_proposition(p: Proposal, now_ms: i64) -> Proposition {
    Proposition {
        confidence: evidence_confidence(p.evidence_count),
        evidence_count: p.evidence_count,
        ..fresh_proposition(p.name_or_text, p.tags, now_ms)
    }
}

/// Whether a proposal changes anything.
pub open spec fn applies(
    cfg: ReviserConfig,
    p: Proposal,
    b: Seq<(Seq<char>, BetaParam)>,
) -> bool {
    passes(cfg, p) && (p.kind == ProposalKind::AddDimension ==> !has_dim(b, p.name_or_text))
}

/// Whether the propositions can take in a proposal: where it adds one, the
/// entry for the same claim can be observed once more. The time does not
/// matter.
pub open spec fn proposal_fits(
    cfg: ReviserConfig,
    p: Proposal,
    b: Seq<(Seq<char>, BetaParam)>,
    s: Seq<Proposition>,
) -> bool {
    applies(cfg, p, b) && p.kind == ProposalKind::AddProposition ==> room_for(
        s,
        proposed_proposition(p, 0),
    )
}

/// The belief after a proposal: a new dimension starts with the pessimistic
/// prior `α = 1, β = 2`.
pub open spec fn belief_after_proposal(
    cfg: ReviserConfig,
    p: Proposal,
    b: Seq<(Seq<char>, BetaParam)>,
) -> Seq<(Seq<char>, BetaParam)> {
    if applies(cfg, p, b) && p.kind == ProposalKind::AddDimension {
        b.push((p.name_or_text, BetaParam { alpha: ONE, beta: 2_000_000_000 }))
    } else {
        b
    }
}

/// The propositions after a proposal.
pub open spec fn store_after_proposal(
    cfg: ReviserConfig,
    p: Proposal,
    b: Seq<(Seq<char>, BetaParam)>,
    s: Seq<Proposition>,
    now_ms: i64,
) -> Seq<Proposition> {
    if applies(cfg, p, b) && p.kind == ProposalKind::AddProposition {
        with_added(s, proposed_proposition(p, now_ms), now_ms)
    } else {
        s
    }
}

/// Every proposal of a review has at least the configured evidence.
pub proof fn law_proposals_have_evidence(
    s: ReviserState,
    b: Seq<(Seq<char>, BetaParam)>,
    store: Seq<Proposition>,
    i: int,
)
    requires
        s.failures.len() <= i32::MAX,
        0 <= i < revisions(s, b, store).len(),
    ensures
        revisions(s, b, store)[i].evidence_count >= s.cfg.min_evidence_count,
        revisions(s, b, store)[i].tags.len() > 0,
{
    let t = s.cfg.cluster_jaccard_thresh as nat;
    let groups = grouped(s.failures, s.failures.len(), t);
    lemma_groups_small(s.failures, s.failures.len(), t);
    lemma_proposals_evidence(s.cfg, s.failures, groups, groups.len(), b, store, i);
}

proof fn lemma_proposals_evidence(
    cfg: ReviserConfig,
    failures: Seq<Failure>,
    groups: Seq<Group>,
    n: nat,
    b: Seq<(Seq<char>, BetaParam)>,
    s: Seq<Proposition>,
    i: int,
)
    requires
        n <= groups.len(),
        forall|g: int| 0 <= g < groups.len() ==> (#[trigger] groups[g]).members.len() <= i32::MAX,
        0 <= i < proposals_for(cfg, failures, groups, n, b, s).len(),
    ensures
        proposals_for(cfg, failures, groups, n, b, s)[i].evidence_count >= cfg.min_evidence_count,
        proposals_for(cfg, failures, groups, n, b, s)[i].tags.len() > 0,
    decreases n,
{
    if n > 0 {
        let before = proposals_for(cfg, failures, groups, (n - 1) as nat, b, s);
        assert(groups[n - 1].members.len() <= i32::MAX);
        if i < before.len() {
            lemma_proposals_evidence(cfg, failures, groups, (n - 1) as nat, b, s, i);
        }
    }
}

proof fn lemma_best_group(groups: Seq<Group>, n: nat, toks: Set<Seq<char>>, thresh: nat)
    ensures
        best_group(groups, n, toks, thresh).1 matches Some(g) ==> 0 <= g < n,
    decreases n,
{
    if n > 0 {
        lemma_best_group(groups, (n - 1) as nat, toks, thresh);
    }
}

/// No group has more members than there are failures, members are positions
/// of failures, and there are no more groups than failures.
pub proof fn lemma_groups_small(failures: Seq<Failure>, n: nat, thresh: nat)
    ensures
        grouped(failures, n, thresh).len() <= n,
        forall|g: int|
            0 <= g < grouped(failures, n, thresh).len() ==> (#[trigger] grouped(
                failures,
                n,
                thresh,
            )[g]).members.len() <= n,
        forall|g: int, m: int|
            0 <= g < grouped(failures, n, thresh).len() && 0 <= m < grouped(
                failures,
                n,
                thresh,
            )[g].members.len() ==> 0 <= #[trigger] grouped(failures, n, thresh)[g].members[m] < n,
    decreases n,
{
    if n > 0 {
        let before = grouped(failures, (n - 1) as nat, thresh);
        let toks = failure_words(failures[n - 1]).to_set();
        lemma_groups_small(failures, (n - 1) as nat, thresh);
        lemma_best_group(before, before.len(), toks, thresh);
        let after = grouped(failures, n, thresh);
        assert forall|g: int| 0 <= g < after.len() implies (#[trigger] after[g]).members.len()
            <= n by {
            if g < before.len() {
                assert(before[g].members.len() <= n - 1);
            }
        }
        assert forall|g: int, m: int|
            0 <= g < after.len() && 0 <= m < after[g].members.len() implies 0
            <= #[trigger] after[g].members[m] < n by {
            if g < before.len() {
                if m < before[g].members.len() {
                    assert(after[g].members[m] == before[g].members[m]);
                    assert(0 <= before[g].members[m] < n - 1);
                }
            }
        }
    }
}

/// Whether the group `g` holds the failure `i`.
pub open spec fn holds_failure(groups: Seq<Group>, g: int, i: int) -> bool {
    0 <= g < groups.len() && groups[g].members.contains(i)
}

/// Every failure that has words belongs to exactly one group, and one without
/// words to none.
pub proof fn law_failures_are_grouped_once(
    failures: Seq<Failure>,
    n: nat,
    thresh: nat,
    i: int,
)
    requires
        0 <= i < n,
    ensures
        failure_words(failures[i]).to_set().len() > 0 <==> exists|g: int| #[trigger]
            holds_failure(grouped(failures, n, thresh), g, i),
        forall|g: int, h: int| #[trigger]
            holds_failure(grouped(failures, n, thresh), g, i) && #[trigger] holds_failure(
                grouped(failures, n, thresh),
                h,
                i,
            ) ==> g == h,
    decreases n,
{
    let before = grouped(failures, (n - 1) as nat, thresh);
    let after = grouped(failures, n, thresh);
    let toks = failure_words(failures[n - 1]).to_set();
    lemma_groups_small(failures, (n - 1) as nat, thresh);
    lemma_best_group(before, before.len(), toks, thresh);
    let best = best_group(before, before.len(), toks, thresh).1;
    if i < n - 1 {
        law_failures_are_grouped_once(failures, (n - 1) as nat, thresh, i);
        assert forall|g: int| holds_failure(after, g, i) == #[trigger] holds_failure(
            before,
            g,
            i,
        ) by {
            lemma_group_after(before, best, toks, n - 1, g, i);
        }
        if exists|g: int| #[trigger] holds_failure(before, g, i) {
            let g = choose|g: int| #[trigger] holds_failure(before, g, i);
            assert(holds_failure(after, g, i));
        }
        if exists|g: int| #[trigger] holds_failure(after, g, i) {
            let g = choose|g: int| #[trigger] holds_failure(after, g, i);
            assert(holds_failure(before, g, i));
        }
        assert forall|g: int, h: int| #[trigger]
            holds_failure(after, g, i) && #[trigger] holds_failure(after, h, i) implies g == h by {
            assert(holds_failure(before, g, i) && holds_failure(before, h, i));
        }
    } else {
        assert forall|g: int| !#[trigger] holds_failure(before, g, i) by {
            if holds_failure(before, g, i) {
                let q = choose|q: int|
                    0 <= q < before[g].members.len() && before[g].members[q] == i;
                assert(0 <= before[g].members[q] < n - 1);
            }
        }
        if toks.len() > 0 {
            let target = match best {
                Some(g) => g,
                None => before.len() as int,
            };
            let ms = after[target].members;
            assert(ms[ms.len() - 1] == i);
            assert(holds_failure(after, target, i));
            assert forall|g: int| #[trigger] holds_failure(after, g, i) implies g == target by {
                if g != target {
                    assert(after[g] == before[g]);
                    assert(holds_failure(before, g, i));
                }
            }
        }
    }
}

proof fn lemma_group_after(
    before: Seq<Group>,
    best: Option<int>,
    toks: Set<Seq<char>>,
    x: int,
    g: int,
    i: int,
)
    requires
        i != x,
        best matches Some(b) ==> 0 <= b < before.len(),
    ensures
        ({
            let after = if toks.len() == 0 {
                before
            } else {
                match best {
                    Some(b) => before.update(
                        b,
                        Group {
                            members: before[b].members.push(x),
                            centroid: before[b].centroid.union(toks),
                        },
                    ),
                    None => before.push(Group { members: seq![x], centroid: toks }),
                }
            };
            holds_failure(after, g, i) == holds_failure(before, g, i)
        }),
{
    if toks.len() > 0 {
        match best {
            Some(b) => {
                let grown = before[b].members.push(x);
                if before[b].members.contains(i) {
                    let q = choose|q: int|
                        0 <= q < before[b].members.len() && before[b].members[q] == i;
                    assert(grown[q] == i);
                }
                if grown.contains(i) {
                    let q = choose|q: int| 0 <= q < grown.len() && grown[q] == i;
                    assert(before[b].members[q] == i);
                }
            },
            None => {
                assert(!seq![x].contains(i));
            },
        }
    }
}

/// A dimension is proposed to any effect only once.
pub proof fn law_dimension_is_added_once(
    cfg: ReviserConfig,
    p: Proposal,
    b: Seq<(Seq<char>, BetaParam)>,
)
    requires
        p.kind == ProposalKind::AddDimension,
    ensures
        !applies(cfg, p, belief_after_proposal(cfg, p, b)),
{
    let after = belief_after_proposal(cfg, p, b);
    if applies(cfg, p, b) {
        assert(after[b.len() as int].0 == p.name_or_text);
        assert(has_dim(after, p.name_or_text));
    }
}

/// A group while it is being formed.
struct Cluster {
    members: Vec<usize>,
    centroid: WordSet,
}

/// The mathematical value of a cluster.
spec fn cluster_view(c: Cluster) -> Group {
    Group { members: indices(c.members@), centroid: c.centroid@ }
}

spec fn cluster_views(s: Seq<Cluster>) -> Seq<Group> {
    s.map_values(|c: Cluster| cluster_view(c))
}

fn event_words(f: &FailureEvent) -> (r: Vec<String>)
    ensures
        views(r@) == failure_words(f@),
{
    let mut t: String = owned(f.description.as_str());
    t.append(" ");
    t.append(f.tool.as_str());
    split_words(t.as_str(), 3, true)
}

fn count_word(all: &Vec<String>, w: &str) -> (r: u64)
    ensures
        r == views(all@).to_multiset().count(w@),
{
    broadcast use vstd::seq_lib::group_to_multiset_ensures;

    let mut n: u64 = 0;
    let ghost a = views(all@);
    for i in 0..all.len()
        invariant
            a == views(all@),
            n <= i,
            n == a.take(i as int).to_multiset().count(w@),
    {
        proof {
            broadcast use vstd::seq_lib::group_to_multiset_ensures;

            assert(a.take(i + 1) =~= a.take(i as int).push(all@[i as int]@));
            assert(a.take(i + 1).to_multiset() == a.take(i as int).to_multiset().insert(
                all@[i as int]@,
            ));
        }
        if same(all[i].as_str(), w) {
            n = n + 1;
        }
    }
    proof {
        assert(a.take(a.len() as int) =~= a);
    }
    n
}

/// The `k` most frequent words of a list.
fn top_keywords(all: &Vec<String>, k: usize) -> (r: Vec<String>)
    ensures
        views(r@) == top_words(views(all@), k as nat),
{
    let set: WordSet = WordSet::of(all);
    let vocab: Vec<String> = sort_strings(&set.items);
    let ghost vv = views(vocab@);
    let ghost freq = frequencies(views(all@), vv);
    let mut counts: Vec<i128> = Vec::new();
    for i in 0..vocab.len()
        invariant
            vv == views(vocab@),
            freq == frequencies(views(all@), vv),
            counts@.len() == i,
            forall|j: int| 0 <= j < i ==> #[trigger] counts@[j] as int == freq[j],
    {
        counts.push(count_word(all, vocab[i].as_str()) as i128);
    }
    proof {
        assert(ints(counts@) =~= freq);
    }
    let order: Vec<usize> = descending_order(&counts);
    let ghost ord = indices(order@);
    let mut out: Vec<String> = Vec::new();
    let mut i: usize = 0;
    while i < order.len() && i < k
        invariant
            i <= order@.len(),
            i <= k,
            vv == views(vocab@),
            ord == indices(order@),
            order@.len() == vocab@.len(),
            forall|j: int| 0 <= j < order@.len() ==> 0 <= #[trigger] order@[j] < vocab@.len(),
            views(out@) == ord.take(i as int).map_values(|i: int| vv[i]),
        decreases order@.len() - i,
    {
        let x: usize = order[i];
        let w: String = vocab[x].clone();
        proof {
            lemma_views_push(out@, w);
            assert(ord.take(i + 1) =~= ord.take(i as int).push(x as int));
            assert(ord.take(i + 1).map_values(|i: int| vv[i]) =~= ord.take(i as int).map_values(
                |i: int| vv[i],
            ).push(vv[x as int]));
        }
        out.push(w);
        i = i + 1;
    }
    proof {
        assert(ord.take(i as int) =~= at_most(ord, k as nat));
    }
    out
}

fn novelty_score(keywords: &Vec<String>, belief: &SelfBelief, store: &SelfModelStore) -> (r: u64)
    ensures
        r as int == novelty_of(views(keywords@), belief@, store@),
        r <= ONE,
{
    let set: WordSet = WordSet::of(keywords);
    let ghost kw = views(keywords@).to_set();
    let ghost b = belief@;
    let ghost s = store@;
    let mut max_j: u64 = 0;
    for i in 0..belief.dims.len()
        invariant
            set.wf(),
            set@ == kw,
            b == belief@,
            b.len() == belief.dims@.len(),
            max_j <= ONE,
            max_j == overlap_dims(b.take(i as int), kw),
    {
        let toks: WordSet = WordSet::of(&split_words(belief.dims[i].name.as_str(), 3, true));
        let j: u64 = set.jaccard(&toks);
        proof {
            assert(b.take(i + 1).drop_last() =~= b.take(i as int));
            assert(b.take(i + 1).last().0 == belief.dims@[i as int].name@);
        }
        if j > max_j {
            max_j = j;
        }
    }
    proof {
        assert(b.take(b.len() as int) =~= b);
    }
    let ghost base = max_j as nat;
    for i in 0..store.props.len()
        invariant
            set.wf(),
            set@ == kw,
            s == store@,
            s.len() == store.props@.len(),
            max_j <= ONE,
            max_j == overlap_props(s.take(i as int), kw, base),
    {
        let toks: WordSet = proposition_words(&store.props[i], 3, true);
        let j: u64 = set.jaccard(&toks);
        proof {
            assert(s.take(i + 1).drop_last() =~= s.take(i as int));
            assert(s.take(i + 1).last() == store.props@[i as int]@);
        }
        if j > max_j {
            max_j = j;
        }
    }
    proof {
        assert(s.take(s.len() as int) =~= s);
    }
    ONE - max_j
}

impl Default for SchemaReviser {
    fn default() -> (r: SchemaReviser)
        ensures
            r.wf(),
            r@ == fresh_reviser(default_reviser_config()),
    {
        SchemaReviser::with_config(ReviserConfig::default())
    }
}

impl SchemaReviser {
    /// The invariant: the buffer is within its bound, and no review lies
    /// ahead of the episodes.
    pub open spec fn wf(&self) -> bool {
        &&& self.failures@.len() <= self.cfg.max_failures_buffer
        &&& 0 <= self.last_review_episode <= self.episode_count
    }

    pub fn new() -> (r: SchemaReviser)
        ensures
            r.wf(),
            r@ == fresh_reviser(default_reviser_config()),
    {
        SchemaReviser::with_config(ReviserConfig::default())
    }

    pub fn with_config(cfg: ReviserConfig) -> (r: SchemaReviser)
        ensures
            r.wf(),
            r@ == fresh_reviser(cfg),
    {
        let r = SchemaReviser {
            cfg,
            failures: Vec::new(),
            episode_count: 0,
            last_review_episode: 0,
        };
        proof {
            assert(r@.failures =~= Seq::empty());
        }
        r
    }

    pub fn config(&self) -> (r: &ReviserConfig)
        ensures
            *r == self.cfg,
    {
        &self.cfg
    }

    /// The buffered failures, oldest first.
    pub fn failures(&self) -> (r: &[FailureEvent])
        ensures
            failure_views(r@) == self@.failures,
    {
        self.failures.as_slice()
    }

    /// Records a failure; where its time is zero, the current time is filled
    /// in.
    pub fn record_failure(&mut self, ev: FailureEvent)
        requires
            old(self).wf(),
        ensures
            final(self).wf(),
            exists|now_ms: i64|
                final(self)@ == #[trigger] after_failure_event(old(self)@, ev@, now_ms),
    {
        let t: i64 = now_millis();
        self.record_failure_at(ev, t);
    }

    /// Records a failure as of a given time.
    pub fn record_failure_at(&mut self, ev: FailureEvent, now_ms: i64)
        requires
            old(self).wf(),
        ensures
            final(self).wf(),
            final(self)@ == after_failure_event(old(self)@, ev@, now_ms),
    {
        let mut e: FailureEvent = ev;
        if e.ts == 0 {
            e.ts = now_ms;
        }
        let mut list: Vec<FailureEvent> = Vec::new();
        core::mem::swap(&mut list, &mut self.failures);
        list.push(e);
        let ghost all = list@;
        self.failures = drop_oldest(list, self.cfg.max_failures_buffer);
        proof {
            assert(failure_views(all) =~= old(self)@.failures.push(e@));
            assert(self@.failures =~= keep_last(
                failure_views(all),
                self.cfg.max_failures_buffer as nat,
            ));
        }
    }

    /// Reserved hook: a success changes nothing.
    pub fn record_success(&mut self, _dim_or_tag: &str)
        ensures
            *final(self) == *old(self),
    {
    }

    pub fn note_episode_complete(&mut self)
        requires
            old(self).wf(),
            old(self)@.episode_count < i32::MAX,
        ensures
            final(self).wf(),
            final(self)@ == (ReviserState {
                episode_count: (old(self)@.episode_count + 1) as i32,
                ..old(self)@
            }),
    {
        self.episode_count = self.episode_count + 1;
    }

    pub fn should_review(&self) -> (r: bool)
        requires
            self.wf(),
        ensures
            r == review_due(self@),
    {
        self.failures.len() >= self.cfg.min_evidence_count && (self.episode_count
            - self.last_review_episode) as usize >= self.cfg.review_every_n_episodes
    }

    /// Proposes a revision for each large enough group of failures, and
    /// notes that a review took place.
    pub fn propose_revisions(
        &mut self,
        belief: &SelfBelief,
        store: &SelfModelStore,
    ) -> (r: Vec<SchemaProposal>)
        requires
            old(self).wf(),
            old(self).failures@.len() <= i32::MAX,
        ensures
            final(self).wf(),
            proposal_views(r@) == revisions(old(self)@, belief@, store@),
            final(self)@ == (ReviserState {
                last_review_episode: old(self)@.episode_count,
                ..old(self)@
            }),
    {
        let clusters: Vec<Cluster> = self.cluster_failures();
        let ghost groups = cluster_views(clusters@);
        let ghost st = self@;
        proof {
            lemma_groups_small(
                st.failures,
                st.failures.len(),
                st.cfg.cluster_jaccard_thresh as nat,
            );
        }
        let mut out: Vec<SchemaProposal> = Vec::new();
        proof {
            assert(proposal_views(out@) =~= seq![]);
        }
        for i in 0..clusters.len()
            invariant
                self.wf(),
                self.failures@.len() <= i32::MAX,
                st == self@,
                st == old(self)@,
                groups == cluster_views(clusters@),
                forall|g: int|
                    0 <= g < groups.len() ==> (#[trigger] groups[g]).members.len()
                        <= st.failures.len(),
                forall|g: int, m: int|
                    0 <= g < groups.len() && 0 <= m < groups[g].members.len() ==> 0
                        <= #[trigger] groups[g].members[m] < st.failures.len(),
                proposal_views(out@) == proposals_for(
                    st.cfg,
                    st.failures,
                    groups,
                    i as nat,
                    belief@,
                    store@,
                ),
        {
            proof {
                assert(groups[i as int] == cluster_view(clusters@[i as int]));
                assert(indices(clusters@[i as int].members@).len() <= st.failures.len());
                assert forall|m: int| 0 <= m < clusters@[i as int].members@.len() implies
                    #[trigger] clusters@[i as int].members@[m] < self.failures@.len() by {
                    assert(groups[i as int].members[m] == clusters@[i as int].members@[m] as int);
                }
            }
            match self.propose_one(&clusters[i].members, belief, store) {
                Some(p) => {
                    proof {
                        assert(proposal_views(out@.push(p)) =~= proposal_views(out@).push(p@));
                    }
                    out.push(p);
                },
                None => {},
            }
        }
        self.last_review_episode = self.episode_count;
        out
    }

    fn propose_one(
        &self,
        members: &Vec<usize>,
        belief: &SelfBelief,
        store: &SelfModelStore,
    ) -> (r: Option<SchemaProposal>)
        requires
            self.wf(),
            self.failures@.len() <= i32::MAX,
            members@.len() <= self.failures@.len(),
            forall|m: int| 0 <= m < members@.len() ==> #[trigger] members@[m] < self.failures@.len(),
        ensures
            match proposal_for(self.cfg, self@.failures, indices(members@), belief@, store@) {
                Some(p) => r matches Some(q) && q@ == p,
                None => r is None,
            },
    {
        if members.len() < self.cfg.min_evidence_count {
            return None;
        }
        let all: Vec<String> = self.words_of(members);
        let keywords: Vec<String> = top_keywords(&all, 4);
        let ghost kw = views(keywords@);
        if keywords.len() == 0 {
            return None;
        }
        let list: String = join(&keywords, ", ");
        let novelty: u64 = novelty_score(&keywords, belief, store);
        let mut known: bool = false;
        for i in 0..keywords.len()
            invariant
                kw == views(keywords@),
                known == exists|k: int| 0 <= k < i && has_dim(belief@, #[trigger] kw[k]),
        {
            if belief.has_dimension(keywords[i].as_str()) {
                known = true;
                proof {
                    assert(has_dim(belief@, kw[i as int]));
                }
            }
        }
        let name_or_text: String = if known {
            let mut t: String = owned("I tend to fail when the task involves ");
            t.append(list.as_str());
            t.append(".");
            t
        } else {
            let mut head: Vec<String> = Vec::new();
            head.push(keywords[0].clone());
            if keywords.len() > 1 {
                head.push(keywords[1].clone());
            }
            proof {
                assert(views(head@) =~= at_most(kw, 2));
            }
            join(&head, "_")
        };
        let mut rationale: String = fmt_u64(members.len() as u64);
        rationale.append(" failures cluster around tokens [");
        rationale.append(list.as_str());
        rationale.append("]");
        let kind: ProposalKind = if known {
            ProposalKind::AddProposition
        } else {
            ProposalKind::AddDimension
        };
        Some(
            SchemaProposal {
                kind,
                name_or_text,
                tags: keywords,
                rationale,
                evidence_count: members.len() as i32,
                novelty,
            },
        )
    }

    fn words_of(&self, members: &Vec<usize>) -> (r: Vec<String>)
        requires
            forall|m: int| 0 <= m < members@.len() ==> #[trigger] members@[m] < self.failures@.len(),
        ensures
            views(r@) == member_words(self@.failures, indices(members@)),
    {
        let mut all: Vec<String> = Vec::new();
        let ghost ms = indices(members@);
        proof {
            assert(views(all@) =~= seq![]);
        }
        for i in 0..members.len()
            invariant
                ms == indices(members@),
                forall|m: int|
                    0 <= m < members@.len() ==> #[trigger] members@[m] < self.failures@.len(),
                views(all@) == member_words(self@.failures, ms.take(i as int)),
        {
            let m: usize = members[i];
            let mut w: Vec<String> = event_words(&self.failures[m]);
            let ghost before = all@;
            let ghost more = w@;
            all.append(&mut w);
            proof {
                assert(views(all@) =~= views(before) + views(more));
                assert(ms.take(i + 1).drop_last() =~= ms.take(i as int));
                assert(ms.take(i + 1).last() == m as int);
            }
        }
        proof {
            assert(ms.take(ms.len() as int) =~= ms);
        }
        all
    }

    /// Applies a proposal if it passes both gates, as of now. Returns whether
    /// anything was applied.
    pub fn apply(
        &self,
        prop: &SchemaProposal,
        belief: &mut SelfBelief,
        store: &mut SelfModelStore,
    ) -> (r: bool)
        requires
            old(belief).wf(),
            proposal_fits(self.cfg, prop@, old(belief)@, old(store)@),
        ensures
            final(belief).wf(),
            r == applies(self.cfg, prop@, old(belief)@),
            final(belief)@ == belief_after_proposal(self.cfg, prop@, old(belief)@),
            exists|now_ms: i64|
                final(store)@ == #[trigger] store_after_proposal(
                    self.cfg,
                    prop@,
                    old(belief)@,
                    old(store)@,
                    now_ms,
                ),
    {
        let t: i64 = now_millis();
        self.apply_at(prop, belief, store, t)
    }

    /// Applies a proposal as of a given time.
    pub fn apply_at(
        &self,
        prop: &SchemaProposal,
        belief: &mut SelfBelief,
        store: &mut SelfModelStore,
        now_ms: i64,
    ) -> (r: bool)
        requires
            old(belief).wf(),
            proposal_fits(self.cfg, prop@, old(belief)@, old(store)@),
        ensures
            final(belief).wf(),
            r == applies(self.cfg, prop@, old(belief)@),
            final(belief)@ == belief_after_proposal(self.cfg, prop@, old(belief)@),
            final(store)@ == store_after_proposal(
                self.cfg,
                prop@,
                old(belief)@,
                old(store)@,
                now_ms,
            ),
    {
        if prop.novelty < self.cfg.novelty_threshold || prop.evidence_count < 0 || (
        prop.evidence_count as usize) < self.cfg.min_evidence_count {
            return false;
        }
        match prop.kind {
            ProposalKind::AddDimension => {
                if belief.has_dimension(prop.name_or_text.as_str()) {
                    return false;
                }
                belief.add_dimension(prop.name_or_text.as_str(), ONE, 2_000_000_000);
                true
            },
            ProposalKind::AddProposition => {
                let n: i32 = prop.evidence_count;
                let conf: u64 = if n >= 4 {
                    800_000_000
                } else {
                    ((4 + n) as u64) * 100_000_000
                };
                let sp: SelfProposition = SelfProposition::new_at(
                    prop.name_or_text.as_str(),
                    copy_strings(&prop.tags),
                    now_ms,
                ).with_confidence(conf).with_evidence_count(n);
                proof {
                    assert(sp@ == proposed_proposition(prop@, now_ms));
                }
                store.add_proposition_at(sp, now_ms);
                true
            },
        }
    }

    /// Groups the failures in one pass over the words of their description
    /// and tool.
    fn cluster_failures(&self) -> (r: Vec<Cluster>)
        ensures
            cluster_views(r@) == grouped(
                self@.failures,
                self@.failures.len(),
                self.cfg.cluster_jaccard_thresh as nat,
            ),
    {
        let mut clusters: Vec<Cluster> = Vec::new();
        let ghost fs = self@.failures;
        let ghost thresh = self.cfg.cluster_jaccard_thresh as nat;
        proof {
            assert(cluster_views(clusters@) =~= seq![]);
        }
        for i in 0..self.failures.len()
            invariant
                fs == self@.failures,
                fs.len() == self.failures@.len(),
                thresh == self.cfg.cluster_jaccard_thresh,
                forall|c: int| 0 <= c < clusters@.len() ==> (#[trigger] clusters@[c]).centroid.wf(),
                cluster_views(clusters@) == grouped(fs, i as nat, thresh),
        {
            let list: Vec<String> = event_words(&self.failures[i]);
            let toks: WordSet = WordSet::of(&list);
            let ghost before = cluster_views(clusters@);
            if toks.len() > 0 {
                let mut best_i: Option<usize> = None;
                let mut best_j: u64 = self.cfg.cluster_jaccard_thresh;
                for c in 0..clusters.len()
                    invariant
                        toks.wf(),
                        thresh == self.cfg.cluster_jaccard_thresh,
                        before == cluster_views(clusters@),
                        forall|c: int|
                            0 <= c < clusters@.len() ==> (#[trigger] clusters@[c]).centroid.wf(),
                        best_group(before, c as nat, toks@, thresh).0 == best_j,
                        match best_i {
                            Some(b) => best_group(before, c as nat, toks@, thresh).1 == Some(b as int)
                                && b < c,
                            None => best_group(before, c as nat, toks@, thresh).1 is None,
                        },
                {
                    let j: u64 = toks.jaccard(&clusters[c].centroid);
                    if j >= best_j {
                        best_j = j;
                        best_i = Some(c);
                    }
                }
                match best_i {
                    Some(b) => {
                        let ghost was = clusters@;
                        let mut cl: Cluster = clusters.remove(b);
                        cl.members.push(i);
                        cl.centroid.extend(&list);
                        clusters.insert(b, cl);
                        proof {
                            assert(clusters@ =~= was.update(b as int, cl));
                            assert(indices(cl.members@) =~= before[b as int].members.push(i as int));
                            assert(cluster_views(clusters@) =~= before.update(
                                b as int,
                                cluster_view(cl),
                            ));
                        }
                    },
                    None => {
                        let mut members: Vec<usize> = Vec::new();
                        members.push(i);
                        let cl: Cluster = Cluster { members, centroid: toks };
                        clusters.push(cl);
                        proof {
                            assert(indices(cl.members@) =~= seq![i as int]);
                            assert(cluster_views(clusters@) =~= before.push(cluster_view(cl)));
                        }
                    },
                }
            }
        }
        clusters
    }
}

/// A proposal that is not novel enough, or rests on too little evidence,
/// changes nothing.
pub proof fn law_refused_proposal_changes_nothing(
    cfg: ReviserConfig,
    p: Proposal,
    b: Seq<(Seq<char>, BetaParam)>,
    s: Seq<Proposition>,
    now_ms: i64,
)
    requires
        p.novelty < cfg.novelty_threshold || p.evidence_count < cfg.min_evidence_count,
    ensures
        !applies(cfg, p, b),
        belief_after_proposal(cfg, p, b) == b,
        store_after_proposal(cfg, p, b, s, now_ms) == s,
{
}

/// A novel proposal with enough evidence takes effect: a new dimension joins
/// the belief, whose other dimensions stay, and starts below one half; a new
/// proposition joins the propositions with its text, its tags and the
/// evidence for it.
pub proof fn law_accepted_proposal_takes_effect(
    cfg: ReviserConfig,
    p: Proposal,
    b: Seq<(Seq<char>, BetaParam)>,
    s: Seq<Proposition>,
    now_ms: i64,
)
    requires
        p.novelty >= cfg.novelty_threshold,
        p.evidence_count >= cfg.min_evidence_count,
    ensures
        p.kind == ProposalKind::AddDimension && !has_dim(b, p.name_or_text) ==> {
            let after = belief_after_proposal(cfg, p, b);
            &&& after.drop_last() == b
            &&& after.last().0 == p.name_or_text
            &&& after.last().1.beta == 2 * after.last().1.alpha
            &&& after.last().1.alpha == 1_000_000_000
            &&& store_after_proposal(cfg, p, b, s, now_ms) == s
        },
        p.kind == ProposalKind::AddProposition && (forall|i: int|
            0 <= i < s.len() ==> (#[trigger] s[i]).id != proposed_proposition(p, now_ms).id) ==> {
            let after = store_after_proposal(cfg, p, b, s, now_ms);
            &&& after.drop_last() == s
            &&& after.last().text == p.name_or_text
            &&& after.last().tags == p.tags
            &&& after.last().evidence_count == p.evidence_count
            &&& belief_after_proposal(cfg, p, b) == b
        },
{
    if p.kind == ProposalKind::AddDimension {
        assert(belief_after_proposal(cfg, p, b).drop_last() =~= b || has_dim(b, p.name_or_text));
    } else {
        let q = proposed_proposition(p, now_ms);
        reveal_strlit("sp-");
        assert(q.id.len() > 0);
        lemma_prop_index(s, q.id);
        if forall|i: int| 0 <= i < s.len() ==> (#[trigger] s[i]).id != q.id {
            assert(store_after_proposal(cfg, p, b, s, now_ms).drop_last() =~= s);
        }
    }
}

/// One failure is worth a confidence of one half, each further one a tenth
/// more, and no number of them more than four fifths.
pub proof fn law_confidence_grows_with_evidence(n: i32, m: i32)
    requires
        1 <= n <= m,
    ensures
        evidence_confidence(n) <= evidence_confidence(m) <= 800_000_000,
        evidence_confidence(1) == 500_000_000,
        m <= 4 ==> evidence_confidence(m) - evidence_confidence(n) == 100_000_000 * (m - n),
{
}

/// A failure joins a group that it overlaps at least as far as the threshold
/// and at least as far as any other; where no group reaches the threshold it
/// joins none.
pub proof fn law_failure_joins_the_closest_group(
    groups: Seq<Group>,
    n: nat,
    toks: Set<Seq<char>>,
    thresh: nat,
)
    requires
        n <= groups.len(),
    ensures
        match best_group(groups, n, toks, thresh).1 {
            Some(g) => {
                &&& 0 <= g < n
                &&& jaccard(toks, groups[g].centroid) >= thresh
                &&& forall|h: int|
                    0 <= h < n ==> jaccard(toks, (#[trigger] groups[h]).centroid) <= jaccard(
                        toks,
                        groups[g].centroid,
                    )
            },
            None => forall|h: int|
                0 <= h < n ==> jaccard(toks, (#[trigger] groups[h]).centroid) < thresh,
        },
        best_group(groups, n, toks, thresh).0 == match best_group(groups, n, toks, thresh).1 {
            Some(g) => jaccard(toks, groups[g].centroid),
            None => thresh,
        },
    decreases n,
{
    if n > 0 {
        law_failure_joins_the_closest_group(groups, (n - 1) as nat, toks, thresh);
    }
}

/// A group takes in the words of each failure that joins it, and a failure
/// that joins none heads a group of its own with its own words.
pub proof fn law_group_takes_in_words(groups: Seq<Group>, i: int, toks: Set<Seq<char>>, thresh: nat)
    requires
        toks.finite(),
        toks.len() > 0,
    ensures
        ({
            let after = grouped_one(groups, i, toks, thresh);
            match best_group(groups, groups.len(), toks, thresh).1 {
                Some(g) => {
                    &&& after.len() == groups.len()
                    &&& after[g].members.last() == i
                    &&& after[g].members.drop_last() == groups[g].members
                    &&& forall|w: Seq<char>| #[trigger]
                        after[g].centroid.contains(w) <==> groups[g].centroid.contains(w)
                            || toks.contains(w)
                    &&& forall|h: int|
                        0 <= h < groups.len() && h != g ==> after[h] == #[trigger] groups[h]
                },
                None => after == groups.push(Group { members: seq![i], centroid: toks }),
            }
        }),
{
    law_failure_joins_the_closest_group(groups, groups.len(), toks, thresh);
    let after = grouped_one(groups, i, toks, thresh);
    if let Some(g) = best_group(groups, groups.len(), toks, thresh).1 {
        assert(after[g].members.drop_last() =~= groups[g].members);
    }
}

/// A review is due only with enough failures and enough episodes since the
/// last one, and stays due as either grows; right after a review none is due
/// unless every episode is to be reviewed.
pub proof fn law_review_needs_failures_and_episodes(s: ReviserState, t: ReviserState)
    requires
        t.cfg == s.cfg,
        t.last_review_episode == s.last_review_episode,
        t.failures.len() >= s.failures.len(),
        t.episode_count >= s.episode_count,
    ensures
        review_due(s) ==> review_due(t),
        s.failures.len() < s.cfg.min_evidence_count ==> !review_due(s),
        s.episode_count == s.last_review_episode && s.cfg.review_every_n_episodes > 0
            ==> !review_due(s),
        s.failures.len() >= s.cfg.min_evidence_count && s.episode_count - s.last_review_episode
            == s.cfg.review_every_n_episodes ==> review_due(s),
{
}

/// A failure is remembered last, with the time it carries or else the
/// current one; the oldest make room once the buffer is full.
pub proof fn law_failure_is_remembered(s: ReviserState, f: Failure, now_ms: i64)
    requires
        s.cfg.max_failures_buffer > 0,
        s.failures.len() <= s.cfg.max_failures_buffer,
    ensures
        ({
            let t = after_failure_event(s, f, now_ms);
            let x = t.failures.last();
            &&& x.tool == f.tool
            &&& x.description == f.description
            &&& x.task_type == f.task_type
            &&& f.ts != 0 ==> x.ts == f.ts
            &&& f.ts == 0 ==> x.ts == now_ms
            &&& s.failures.len() < s.cfg.max_failures_buffer ==> t.failures.drop_last()
                == s.failures
            &&& s.failures.len() == s.cfg.max_failures_buffer ==> t.failures.drop_last()
                == s.failures.drop_first()
            &&& t.episode_count == s.episode_count
        }),
{
    let t = after_failure_event(s, f, now_ms);
    if s.failures.len() < s.cfg.max_failures_buffer {
        assert(t.failures.drop_last() =~= s.failures);
    } else {
        assert(t.failures.drop_last() =~= s.failures.drop_first());
    }
}

/// What shares no word with anything known is wholly new, and what is known
/// word for word is not new at all.
pub proof fn law_novelty(
    keywords: Seq<Seq<char>>,
    b: Seq<(Seq<char>, BetaParam)>,
    s: Seq<Proposition>,
)
    requires
        keywords.len() > 0,
    ensures
        0 <= novelty_of(keywords, b, s) <= 1_000_000_000,
        (forall|i: int|
            0 <= i < b.len() ==> keywords.to_set().disjoint(
                words((#[trigger] b[i]).0, 3, true).to_set(),
            )) && (forall|i: int|
            0 <= i < s.len() ==> keywords.to_set().disjoint(
                prop_words(#[trigger] s[i], 3, true),
            )) ==> novelty_of(keywords, b, s) == 1_000_000_000,
        forall|i: int|
            0 <= i < s.len() && prop_words(#[trigger] s[i], 3, true) == keywords.to_set()
                ==> novelty_of(keywords, b, s) == 0,
        forall|i: int|
            0 <= i < b.len() && words((#[trigger] b[i]).0, 3, true).to_set() == keywords.to_set()
                ==> novelty_of(keywords, b, s) == 0,
{
    let kw = keywords.to_set();
    keywords.lemma_cardinality_of_set();
    assert(kw.contains(keywords[0]));
    assert(kw.len() > 0) by {
        if kw.len() == 0 {
            assert(kw =~= Set::empty());
        }
    }
    lemma_dims_overlap(b, kw);
    lemma_props_overlap(s, kw, overlap_dims(b, kw));
    law_overlap(kw, kw);
}

proof fn lemma_dims_overlap(b: Seq<(Seq<char>, BetaParam)>, kw: Set<Seq<char>>)
    requires
        kw.finite(),
    ensures
        overlap_dims(b, kw) <= 1_000_000_000,
        (forall|i: int|
            0 <= i < b.len() ==> kw.disjoint(words((#[trigger] b[i]).0, 3, true).to_set()))
            ==> overlap_dims(b, kw) == 0,
        forall|i: int|
            0 <= i < b.len() ==> jaccard(kw, words((#[trigger] b[i]).0, 3, true).to_set())
                <= overlap_dims(b, kw),
    decreases b.len(),
{
    if b.len() > 0 {
        let d = b.drop_last();
        lemma_dims_overlap(d, kw);
        let w = words(b.last().0, 3, true);
        w.lemma_cardinality_of_set();
        law_overlap(kw, w.to_set());
        assert(b[b.len() - 1] == b.last());
        assert forall|i: int| 0 <= i < b.len() implies jaccard(
            kw,
            words((#[trigger] b[i]).0, 3, true).to_set(),
        ) <= overlap_dims(b, kw) by {
            if i < d.len() {
                assert(d[i] == b[i]);
            }
        }
        if forall|i: int|
            0 <= i < b.len() ==> kw.disjoint(words((#[trigger] b[i]).0, 3, true).to_set()) {
            assert forall|i: int| 0 <= i < d.len() implies kw.disjoint(
                words((#[trigger] d[i]).0, 3, true).to_set(),
            ) by {
                assert(d[i] == b[i]);
            }
        }
    }
}

proof fn lemma_props_overlap(s: Seq<Proposition>, kw: Set<Seq<char>>, base: nat)
    requires
        kw.finite(),
        base <= 1_000_000_000,
    ensures
        base <= overlap_props(s, kw, base) <= 1_000_000_000,
        (forall|i: int| 0 <= i < s.len() ==> kw.disjoint(prop_words(#[trigger] s[i], 3, true)))
            ==> overlap_props(s, kw, base) == base,
        forall|i: int|
            0 <= i < s.len() ==> jaccard(kw, prop_words(#[trigger] s[i], 3, true)) <= overlap_props(
                s,
                kw,
                base,
            ),
    decreases s.len(),
{
    if s.len() > 0 {
        let d = s.drop_last();
        lemma_props_overlap(d, kw, base);
        let p = s.last();
        lemma_tag_words_finite(p.tags, 3, true);
        words(p.text, 3, true).lemma_cardinality_of_set();
        law_overlap(kw, prop_words(p, 3, true));
        assert(s[s.len() - 1] == s.last());
        assert forall|i: int| 0 <= i < s.len() implies jaccard(
            kw,
            prop_words(#[trigger] s[i], 3, true),
        ) <= overlap_props(s, kw, base) by {
            if i < d.len() {
                assert(d[i] == s[i]);
            }
        }
        if forall|i: int| 0 <= i < s.len() ==> kw.disjoint(prop_words(#[trigger] s[i], 3, true)) {
            assert forall|i: int| 0 <= i < d.len() implies kw.disjoint(
                prop_words(#[trigger] d[i], 3, true),
            ) by {
                assert(d[i] == s[i]);
            }
        }
    }
}

/// The words that stand for a group are words of its failures, at most four
/// of them, none twice; and none that was left out occurs more often than
/// one that was taken.
pub proof fn law_top_words_are_the_most_frequent(all: Seq<Seq<char>>, k: nat)
    ensures
        ({
            let top = top_words(all, k);
            &&& top.len() <= k
            &&& forall|i: int| 0 <= i < top.len() ==> all.contains(#[trigger] top[i])
            &&& forall|i: int, j: int|
                0 <= i < j < top.len() ==> all.to_multiset().count(#[trigger] top[i])
                    >= all.to_multiset().count(#[trigger] top[j])
            &&& forall|w: Seq<char>, i: int|
                0 <= i < top.len() && #[trigger] all.contains(w) && !top.contains(w)
                    ==> all.to_multiset().count(w) <= all.to_multiset().count(#[trigger] top[i])
            &&& top.len() < k ==> forall|w: Seq<char>|
                #[trigger] all.contains(w) ==> top.contains(w)
        }),
{
    broadcast use vstd::seq_lib::group_to_multiset_ensures;

    let base = distinct(all);
    let vocab = lex_sorted(base);
    let freq = frequencies(all, vocab);
    let n = freq.len();
    let d = descending(freq, n);
    let top = top_words(all, k);
    law_distinct_drops_repetitions(all);
    law_lex_sorted(base);
    law_descending(freq, n);
    assert forall|w: Seq<char>| #[trigger] vocab.contains(w) <==> all.contains(w) by {
        assert(vocab.to_multiset().count(w) == base.to_multiset().count(w));
        assert(vocab.contains(w) <==> vocab.to_multiset().count(w) > 0);
        assert(base.contains(w) <==> base.to_multiset().count(w) > 0);
        assert(base.contains(w) <==> all.contains(w));
    }
    assert forall|i: int| 0 <= i < top.len() implies top[i] == vocab[d[i]] && freq[d[i]]
        == all.to_multiset().count(#[trigger] top[i]) && 0 <= d[i] < n by {}
    assert forall|i: int| 0 <= i < top.len() implies all.contains(#[trigger] top[i]) by {
        assert(vocab.contains(vocab[d[i]]));
    }
    assert forall|i: int, j: int| 0 <= i < j < top.len() implies all.to_multiset().count(
        #[trigger] top[i],
    ) >= all.to_multiset().count(#[trigger] top[j]) by {
        assert(freq[d[i]] >= freq[d[j]]);
    }
    assert forall|w: Seq<char>| #[trigger] all.contains(w) && !top.contains(w) implies k <= d.len()
        && forall|i: int|
        0 <= i < top.len() ==> all.to_multiset().count(w) <= all.to_multiset().count(
            #[trigger] top[i],
        ) by {
        assert(vocab.contains(w));
        let v = choose|v: int| 0 <= v < vocab.len() && vocab[v] == w;
        law_descending_is_complete(freq, n, v);
        let z = choose|z: int| 0 <= z < d.len() && d[z] == v;
        if z < top.len() {
            assert(top[z] == w);
        }
        assert forall|i: int| 0 <= i < top.len() implies all.to_multiset().count(w)
            <= all.to_multiset().count(#[trigger] top[i]) by {
            assert(freq[d[i]] >= freq[d[z]]);
            assert(freq[v] == all.to_multiset().count(w));
        }
    }
}

/// A group of too few failures gives no proposal. One of enough gives a
/// proposal that counts all of them and is tagged with their words: for a
/// dimension where none of the words is one, else for a proposition.
pub proof fn law_proposal_for_a_group(
    cfg: ReviserConfig,
    failures: Seq<Failure>,
    members: Seq<int>,
    b: Seq<(Seq<char>, BetaParam)>,
    s: Seq<Proposition>,
)
    requires
        members.len() <= i32::MAX,
    ensures
        members.len() < cfg.min_evidence_count ==> proposal_for(cfg, failures, members, b, s)
            is None,
        proposal_for(cfg, failures, members, b, s) matches Some(p) ==> {
            let keywords = top_words(member_words(failures, members), 4);
            &&& p.evidence_count == members.len()
            &&& p.tags == keywords
            &&& p.kind == ProposalKind::AddProposition <==> exists|i: int|
                0 <= i < keywords.len() && has_dim(b, #[trigger] keywords[i])
            &&& 0 <= novelty_of(keywords, b, s) <= 1_000_000_000
            &&& p.novelty == novelty_of(keywords, b, s)
        },
        members.len() >= cfg.min_evidence_count && member_words(failures, members).len() > 0
            ==> proposal_for(cfg, failures, members, b, s) is Some,
{
    let all = member_words(failures, members);
    let keywords = top_words(all, 4);
    law_top_words_are_the_most_frequent(all, 4);
    if keywords.len() > 0 {
        law_novelty(keywords, b, s);
    }
    if all.len() > 0 {
        assert(all.contains(all[0]));
        if keywords.len() == 0 {
            assert(keywords.contains(all[0]));
        }
    }
}

proof fn lemma_word_shown(s: Seq<Seq<char>>, sep: Seq<char>, i: int)
    requires
        0 <= i < s.len(),
    ensures
        shows(joined(s, sep), s[i]),
    decreases s.len(),
{
    lemma_shows_itself(s[i]);
    if s.len() > 1 {
        let before = joined(s.drop_last(), sep);
        if i == s.len() - 1 {
            lemma_shows(before + sep, s[i], Seq::empty(), s[i]);
            assert(before + sep + s[i] + Seq::empty() =~= joined(s, sep));
        } else {
            lemma_word_shown(s.drop_last(), sep, i);
            lemma_shows(Seq::empty(), before, sep + s.last(), s[i]);
            assert(Seq::empty() + before + (sep + s.last()) =~= joined(s, sep));
        }
    }
}

/// A proposed dimension is named by the two most frequent words of its
/// group, or by the one there is; a proposed proposition names them all, and
/// so do the grounds for either, after the number of failures.
pub proof fn law_proposal_names_the_words(
    cfg: ReviserConfig,
    failures: Seq<Failure>,
    members: Seq<int>,
    b: Seq<(Seq<char>, BetaParam)>,
    s: Seq<Proposition>,
)
    ensures
        proposal_for(cfg, failures, members, b, s) matches Some(p) ==> {
            let k = p.tags;
            &&& k.len() > 0
            &&& p.kind == ProposalKind::AddDimension && k.len() == 1 ==> p.name_or_text == k[0]
            &&& p.kind == ProposalKind::AddDimension && k.len() > 1 ==> p.name_or_text == k[0]
                + "_"@ + k[1]
            &&& p.kind == ProposalKind::AddProposition ==> forall|i: int|
                0 <= i < k.len() ==> shows(p.name_or_text, #[trigger] k[i])
            &&& forall|i: int| 0 <= i < k.len() ==> shows(p.rationale, #[trigger] k[i])
            &&& begins(p.rationale, dec(members.len()) + " failures"@)
        },
{
    let out = proposal_for(cfg, failures, members, b, s);
    if out is Some {
        let p = out->0;
        let k = p.tags;
        let list = joined(k, ", "@);
        let two = at_most(k, 2);
        if k.len() > 1 {
            assert(two =~= seq![k[0], k[1]]);
            assert(two.drop_last() =~= seq![k[0]]);
            assert(joined(two.drop_last(), "_"@) == k[0]);
        } else {
            assert(two =~= seq![k[0]]);
        }
        let lead = "I tend to fail when the task involves "@;
        let head = dec(members.len()) + " failures cluster around tokens ["@;
        assert forall|i: int| 0 <= i < k.len() implies shows(p.rationale, #[trigger] k[i]) by {
            lemma_word_shown(k, ", "@, i);
            lemma_shows(head, list, "]"@, k[i]);
        }
        if p.kind == ProposalKind::AddProposition {
            assert forall|i: int| 0 <= i < k.len() implies shows(
                p.name_or_text,
                #[trigger] k[i],
            ) by {
                lemma_word_shown(k, ", "@, i);
                lemma_shows(lead, list, "."@, k[i]);
            }
        }
        reveal_strlit(" failures cluster around tokens [");
        reveal_strlit(" failures");
        let first = dec(members.len()) + " failures"@;
        assert(" failures cluster around tokens ["@.take(9) =~= " failures"@);
        assert(p.rationale.take(first.len() as int) =~= first);
    }
}

} // verus!
