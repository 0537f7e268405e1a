//! Structured self-knowledge: a collection of propositions with relevance
//! retrieval and a rendered section for the system prompt.
use crate::ambient::now_millis;
use crate::fixed::{fmt_two_decimals, two_decimals, ONE};
use crate::metacognition::self_proposition::{
    make_proposition_id, proposition_id, Proposition, SelfProposition,
};
use crate::order::{
    descending, descending_order, indices, ints, law_descending, law_descending_is_complete,
};
use crate::text::{
    dec, dec_int, fmt_i64, fmt_u64, has_string, lemma_views_push, owned, same, shows, views,
};
use crate::window::at_most;
use crate::words::{jaccard, law_overlap, split_words, words, WordSet};
use vstd::prelude::*;

verus! {

#[derive(Debug)]
pub struct SelfModelStore {
    pub props: Vec<SelfProposition>,
}

/// The views of a sequence of propositions.
pub open spec fn prop_views(s: Seq<SelfProposition>) -> Seq<Proposition> {
    s.map_values(|p: SelfProposition| p@)
}

impl View for SelfModelStore {
    type V = Seq<Proposition>;

    open spec fn view(&self) -> Seq<Proposition> {
        prop_views(self.props@)
    }
}

/// The position of the first proposition with an identifier, or the length
/// when there is none.
pub open spec fn prop_index(s: Seq<Proposition>, id: Seq<char>) -> int
    decreases s.len(),
{
    if s.len() == 0 || s[0].id == id {
        0
    } else {
        1 + prop_index(s.skip(1), id)
    }
}

/// The position is where the identifier first occurs.
pub proof fn lemma_prop_index(s: Seq<Proposition>, id: Seq<char>)
    ensures
        0 <= prop_index(s, id) <= s.len(),
        prop_index(s, id) < s.len() ==> s[prop_index(s, id)].id == id,
        forall|i: int| 0 <= i < prop_index(s, id) ==> (#[trigger] s[i]).id != id,
    decreases s.len(),
{
    if s.len() > 0 && s[0].id != id {
        let t = s.skip(1);
        lemma_prop_index(t, id);
        assert forall|i: int| 0 <= i < prop_index(s, id) implies (#[trigger] s[i]).id != id by {
            if i > 0 {
                assert(s[i] == t[i - 1]);
            }
        }
    }
}

pub proof fn lemma_prop_index_is(s: Seq<Proposition>, id: Seq<char>, k: int)
    requires
        0 <= k <= s.len(),
        k < s.len() ==> s[k].id == id,
        forall|i: int| 0 <= i < k ==> (#[trigger] s[i]).id != id,
    ensures
        prop_index(s, id) == k,
{
    lemma_prop_index(s, id);
    let d = prop_index(s, id);
    if d < k {
        assert(s[d].id != id);
    } else if k < d {
        assert(s[k].id != id);
    }
}

/// Tags with those of a second list added that are not there yet, in order.
pub open spec fn merged_tags(have: Seq<Seq<char>>, more: Seq<Seq<char>>) -> Seq<Seq<char>>
    decreases more.len(),
{
    if more.len() == 0 {
        have
    } else {
        let m = merged_tags(have, more.drop_last());
        if m.contains(more.last()) {
            m
        } else {
            m.push(more.last())
        }
    }
}

/// A proposition with the identifier of its text and tags where it has none.
pub open spec fn identified(p: Proposition) -> Proposition {
    if p.id.len() == 0 {
        Proposition { id: proposition_id(p.text, p.tags), ..p }
    } else {
        p
    }
}

/// A proposition that was observed once more.
pub open spec fn observed_again(p: Proposition, tags: Seq<Seq<char>>, now_ms: i64) -> Proposition {
    Proposition {
        evidence_count: (p.evidence_count + 1) as i32,
        confidence: if p.confidence + 50_000_000 < ONE {
            (p.confidence + 50_000_000) as u64
        } else {
            ONE
        },
        tags: merged_tags(p.tags, tags),
        updated_at_ms: now_ms,
        ..p
    }
}

/// The propositions after one was added: merged into the entry that has its
/// identifier, else appended.
pub open spec fn with_added(s: Seq<Proposition>, p: Proposition, now_ms: i64) -> Seq<Proposition> {
    let q = identified(p);
    let i = prop_index(s, q.id);
    if i < s.len() {
        s.update(i, observed_again(s[i], q.tags, now_ms))
    } else {
        s.push(q)
    }
}

/// Whether a proposition can be added: the entry with the same identifier,
/// where there is one, can be observed once more.
pub open spec fn room_for(s: Seq<Proposition>, p: Proposition) -> bool {
    let i = prop_index(s, identified(p).id);
    i < s.len() ==> s[i].evidence_count < i32::MAX
}

/// A confidence moved by a difference, held between zero and one.
pub open spec fn moved(c: u64, delta: int) -> u64 {
    if c + delta > ONE {
        ONE
    } else if c + delta < 0 {
        0
    } else {
        (c + delta) as u64
    }
}

/// The propositions after the confidence of one was moved.
pub open spec fn with_moved(
    s: Seq<Proposition>,
    id: Seq<char>,
    delta: int,
    now_ms: i64,
) -> Seq<Proposition> {
    let i = prop_index(s, id);
    if i < s.len() {
        s.update(
            i,
            Proposition { confidence: moved(s[i].confidence, delta), updated_at_ms: now_ms, ..s[i] },
        )
    } else {
        s
    }
}

/// No two propositions share an identifier.
pub open spec fn ids_distinct(s: Seq<Proposition>) -> bool {
    forall|i: int, j: int|
        0 <= i < j < s.len() ==> (#[trigger] s[i]).id != (#[trigger] s[j]).id
}

/// Adding keeps identifiers distinct.
pub proof fn law_add_keeps_ids_distinct(s: Seq<Proposition>, p: Proposition, now_ms: i64)
    requires
        ids_distinct(s),
    ensures
        ids_distinct(with_added(s, p, now_ms)),
{
    let q = identified(p);
    lemma_prop_index(s, q.id);
}

/// Observing the same claim again makes no new entry: it adds one to the
/// evidence of the entry there is.
pub proof fn law_repeat_collapses(s: Seq<Proposition>, p: Proposition, t: i64, u: i64)
    requires
        prop_index(s, identified(p).id) == s.len(),
        identified(p).evidence_count < i32::MAX,
    ensures
        with_added(with_added(s, p, t), p, u).len() == s.len() + 1,
        with_added(with_added(s, p, t), p, u).last().evidence_count == identified(p).evidence_count
            + 1,
        with_added(with_added(s, p, t), p, u).take(s.len() as int) == s,
{
    let q = identified(p);
    let one = with_added(s, p, t);
    lemma_prop_index(s, q.id);
    assert forall|i: int| 0 <= i < s.len() implies (#[trigger] one[i]).id != q.id by {
        assert(one[i] == s[i]);
    }
    lemma_prop_index_is(one, q.id, s.len() as int);
    assert(with_added(one, p, u).take(s.len() as int) =~= s);
}

/// The words of a list of tags.
pub open spec fn tag_words(tags: Seq<Seq<char>>, min: nat, drop_stopwords: bool) -> Set<Seq<char>>
    decreases tags.len(),
{
    if tags.len() == 0 {
        Set::empty()
    } else {
        tag_words(tags.drop_last(), min, drop_stopwords).union(
            words(tags.last(), min, drop_stopwords).to_set(),
        )
    }
}

/// The words of a proposition's text and tags.
pub open spec fn prop_words(p: Proposition, min: nat, drop_stopwords: bool) -> Set<Seq<char>> {
    words(p.text, min, drop_stopwords).to_set().union(tag_words(p.tags, min, drop_stopwords))
}

/// How relevant a proposition is to a set of words: their overlap, times
/// `0.5 + 0.5·confidence`, in billionths.
pub open spec fn relevance(p: Proposition, query: Set<Seq<char>>) -> nat {
    (jaccard(prop_words(p, 3, false), query) * (ONE + p.confidence) as nat) / (2 * ONE as nat)
}

/// The relevance of each proposition to a task.
pub open spec fn relevances(s: Seq<Proposition>, task: Seq<char>) -> Seq<int> {
    s.map_values(|p: Proposition| relevance(p, words(task, 3, false).to_set()) as int)
}

/// The indices with a positive key, largest key first, equal keys in their
/// original order.
pub open spec fn positive_order(keys: Seq<int>) -> Seq<int> {
    descending(keys, keys.len()).filter(|i: int| keys[i] > 0)
}

/// The at most `k` propositions that share a word with the task, most
/// relevant first.
pub open spec fn relevant(s: Seq<Proposition>, task: Seq<char>, k: nat) -> Seq<Proposition> {
    at_most(positive_order(relevances(s, task)), k).map_values(|i: int| s[i])
}

/// One line per proposition, numbered from one.
pub open spec fn rendered_lines(picks: Seq<Proposition>) -> Seq<char>
    decreases picks.len(),
{
    if picks.len() == 0 {
        Seq::empty()
    } else {
        let p = picks.last();
        rendered_lines(picks.drop_last()) + dec(picks.len()) + ". "@ + p.text + "  (confidence="@
            + two_decimals(p.confidence as nat) + ", seen="@ + dec_int(p.evidence_count as int)
            + ")\n"@
    }
}

/// The section of the system prompt; empty where nothing is relevant.
pub open spec fn rendered(picks: Seq<Proposition>) -> Seq<char> {
    if picks.len() == 0 {
        Seq::empty()
    } else {
        "## Self-knowledge relevant to this "@ + "task (Layer 3)\n\n"@
            + "These are propositions you have accumulated about your own tendencies. Use them to set priors, not as ground truth.\n\n"@
            + rendered_lines(picks)
    }
}

/// The words of a proposition, as a set.
pub fn proposition_words(p: &SelfProposition, min: usize, drop_stopwords: bool) -> (r: WordSet)
    ensures
        r.wf(),
        r@ == prop_words(p@, min as nat, drop_stopwords),
{
    let mut set: WordSet = WordSet::of(&split_words(p.text.as_str(), min, drop_stopwords));
    let ghost base = set@;
    let ghost tags = views(p.tags@);
    proof {
        assert(set@ =~= base.union(tag_words(tags.take(0), min as nat, drop_stopwords)));
    }
    for i in 0..p.tags.len()
        invariant
            set.wf(),
            tags == views(p.tags@),
            set@ == base.union(tag_words(tags.take(i as int), min as nat, drop_stopwords)),
    {
        let more: Vec<String> = split_words(p.tags[i].as_str(), min, drop_stopwords);
        set.extend(&more);
        proof {
            assert(tags.take(i + 1).drop_last() =~= tags.take(i as int));
            assert(set@ =~= base.union(tag_words(tags.take(i + 1), min as nat, drop_stopwords)));
        }
    }
    proof {
        assert(tags.take(tags.len() as int) =~= tags);
    }
    set
}

fn score_relevance(p: &SelfProposition, query: &WordSet) -> (r: i128)
    requires
        query.wf(),
    ensures
        r == relevance(p@, query@),
        r >= 0,
{
    let set: WordSet = proposition_words(p, 3, false);
    let j: u64 = set.jaccard(query);
    proof {
        let x = j as int;
        let y = ONE + p.confidence;
        let m = 18_446_744_074_709_551_615int;
        assert(0 <= x * y <= 1_000_000_000 * m) by (nonlinear_arith)
            requires
                0 <= x <= 1_000_000_000,
                0 <= y <= m,
        ;
    }
    (j as i128 * (ONE as i128 + p.confidence as i128)) / (2 * ONE as i128)
}

/// Adds the tags of a second list that are not there yet.
pub fn merge_tags(have: Vec<String>, more: &Vec<String>) -> (r: Vec<String>)
    ensures
        views(r@) == merged_tags(views(have@), views(more@)),
{
    let mut out: Vec<String> = have;
    let ghost base = views(out@);
    let ghost m = views(more@);
    for i in 0..more.len()
        invariant
            m == views(more@),
            views(out@) == merged_tags(base, m.take(i as int)),
    {
        proof {
            assert(m.take(i + 1).drop_last() =~= m.take(i as int));
            assert(m.take(i + 1).last() == more@[i as int]@);
        }
        if !has_string(&out, more[i].as_str()) {
            let t: String = more[i].clone();
            proof {
                lemma_views_push(out@, t);
            }
            out.push(t);
        }
    }
    proof {
        assert(m.take(m.len() as int) =~= m);
    }
    out
}

impl SelfModelStore {
    pub fn new() -> (r: SelfModelStore)
        ensures
            r@ == Seq::<Proposition>::empty(),
    {
        let r = SelfModelStore { props: Vec::new() };
        proof {
            assert(r@ =~= Seq::<Proposition>::empty());
        }
        r
    }

    pub fn propositions(&self) -> (r: &[SelfProposition])
        ensures
            prop_views(r@) == self@,
    {
        self.props.as_slice()
    }

    pub fn len(&self) -> (r: usize)
        ensures
            r == self@.len(),
    {
        self.props.len()
    }

    pub fn is_empty(&self) -> (r: bool)
        ensures
            r == (self@.len() == 0),
    {
        self.props.len() == 0
    }

    /// Takes over what an external source loaded; without a source nothing
    /// changes.
    pub fn load_from_external(&mut self, loaded: Option<Vec<SelfProposition>>)
        ensures
            final(self)@ == match loaded {
                Some(v) => prop_views(v@),
                None => old(self)@,
            },
    {
        match loaded {
            Some(v) => {
                self.props = v;
            },
            None => {},
        }
    }

    fn find(&self, id: &str) -> (r: usize)
        ensures
            r == prop_index(self@, id@),
            r <= self.props@.len(),
            self@.len() == self.props@.len(),
    {
        let mut i: usize = 0;
        while i < self.props.len()
            invariant_except_break
                i <= self.props@.len(),
            invariant
                self@.len() == self.props@.len(),
                forall|j: int| 0 <= j < i ==> (#[trigger] self@[j]).id != id@,
            ensures
                i <= self.props@.len(),
                i < self.props@.len() ==> self@[i as int].id == id@,
            decreases self.props@.len() - i,
        {
            if same(self.props[i].id.as_str(), id) {
                break;
            }
            i = i + 1;
        }
        proof {
            lemma_prop_index_is(self@, id@, i as int);
        }
        i
    }

    /// Adds a proposition as of now. If an entry with the same identifier
    /// exists, its evidence count grows by one, its confidence by 0.05 up to
    /// one, and the tags are merged.
    pub fn add_proposition(&mut self, p: SelfProposition)
        requires
            room_for(old(self)@, p@),
        ensures
            exists|now_ms: i64| final(self)@ == #[trigger] with_added(old(self)@, p@, now_ms),
    {
        let t: i64 = now_millis();
        self.add_proposition_at(p, t);
    }

    /// Adds a proposition as of a given time.
    pub fn add_proposition_at(&mut self, p: SelfProposition, now_ms: i64)
        requires
            room_for(old(self)@, p@),
        ensures
            final(self)@ == with_added(old(self)@, p@, now_ms),
    {
        let mut q: SelfProposition = p;
        if chars_empty(q.id.as_str()) {
            q.id = make_proposition_id(q.text.as_str(), q.tags.as_slice());
        }
        proof {
            assert(q@ == identified(p@));
        }
        let i: usize = self.find(q.id.as_str());
        proof {
            lemma_prop_index(self@, q@.id);
        }
        if i < self.props.len() {
            let mut e: SelfProposition = self.props[i].clone();
            proof {
                assert(e@ == self@[i as int]);
            }
            e.evidence_count = e.evidence_count + 1;
            e.confidence = if e.confidence < ONE - 50_000_000 {
                e.confidence + 50_000_000
            } else {
                ONE
            };
            let tags: Vec<String> = e.tags;
            e.tags = merge_tags(tags, &q.tags);
            e.updated_at_ms = now_ms;
            proof {
                assert(e@ == observed_again(self@[i as int], q@.tags, now_ms));
            }
            self.props.set(i, e);
            proof {
                assert(self@ =~= old(self)@.update(i as int, e@));
            }
        } else {
            self.props.push(q);
            proof {
                assert(self@ =~= old(self)@.push(q@));
            }
        }
    }

    fn move_confidence(&mut self, id: &str, delta: i128, now_ms: i64)
        requires
            -0x1_0000_0000_0000_0000 <= delta <= 0x1_0000_0000_0000_0000,
        ensures
            final(self)@ == with_moved(old(self)@, id@, delta as int, now_ms),
    {
        let i: usize = self.find(id);
        proof {
            lemma_prop_index(self@, id@);
        }
        if i < self.props.len() {
            let c: i128 = self.props[i].confidence as i128 + delta;
            let m: u64 = if c > ONE as i128 {
                ONE
            } else if c < 0 {
                0
            } else {
                c as u64
            };
            self.props[i].confidence = m;
            self.props[i].updated_at_ms = now_ms;
            proof {
                assert(self@ =~= with_moved(old(self)@, id@, delta as int, now_ms));
            }
        }
    }

    /// Raises a confidence by `delta` billionths, held between zero and one,
    /// as of now.
    pub fn reinforce(&mut self, id: &str, delta: i64)
        ensures
            exists|now_ms: i64|
                final(self)@ == #[trigger] with_moved(old(self)@, id@, delta as int, now_ms),
    {
        let t: i64 = now_millis();
        self.move_confidence(id, delta as i128, t);
    }

    /// Lowers a confidence by `delta` billionths, held between zero and one,
    /// as of now.
    pub fn weaken(&mut self, id: &str, delta: i64)
        ensures
            exists|now_ms: i64|
                final(self)@ == #[trigger] with_moved(old(self)@, id@, -(delta as int), now_ms),
    {
        let t: i64 = now_millis();
        self.move_confidence(id, -(delta as i128), t);
    }

    /// The top `k` propositions, ranked by word overlap with the task
    /// description times `0.5 + 0.5·confidence`.
    pub fn retrieve_relevant(&self, task_desc: &str, k: usize) -> (r: Vec<SelfProposition>)
        ensures
            prop_views(r@) == relevant(self@, task_desc@, k as nat),
    {
        let query: WordSet = WordSet::of(&split_words(task_desc, 3, false));
        let ghost s = self@;
        let ghost rel = relevances(s, task_desc@);
        let mut keys: Vec<i128> = Vec::new();
        for i in 0..self.props.len()
            invariant
                query.wf(),
                query@ == words(task_desc@, 3, false).to_set(),
                s == self@,
                rel == relevances(s, task_desc@),
                keys@.len() == i,
                forall|j: int| 0 <= j < i ==> #[trigger] keys@[j] as int == rel[j],
        {
            keys.push(score_relevance(&self.props[i], &query));
        }
        proof {
            assert(ints(keys@) =~= rel);
        }
        let order: Vec<usize> = descending_order(&keys);
        let ghost ord = indices(order@);
        let ghost positive = |i: int| rel[i] > 0;
        let mut out: Vec<SelfProposition> = Vec::new();
        let ghost mut picked: Seq<int> = Seq::empty();
        let mut i: usize = 0;
        proof {
            reveal(Seq::filter);
            assert(prop_views(out@) =~= picked.map_values(|i: int| s[i]));
            assert(ord.take(0).filter(positive) =~= picked);
        }
        while i < order.len() && out.len() < k
            invariant
                i <= order@.len(),
                s == self@,
                self@.len() == self.props@.len(),
                rel.len() == s.len(),
                ints(keys@) == rel,
                keys@.len() == rel.len(),
                ord == indices(order@),
                forall|j: int| 0 <= j < order@.len() ==> 0 <= #[trigger] order@[j] < keys@.len(),
                positive == (|i: int| rel[i] > 0),
                picked == ord.take(i as int).filter(positive),
                prop_views(out@) == picked.map_values(|i: int| s[i]),
                out@.len() <= k,
            decreases order@.len() - i,
        {
            let x: usize = order[i];
            proof {
                reveal(Seq::filter);
                assert(ord.take(i + 1).drop_last() =~= ord.take(i as int));
                assert(ord.take(i + 1).last() == x as int);
                assert(ints(keys@)[x as int] == keys@[x as int]);
            }
            if keys[x] > 0 {
                let p: SelfProposition = self.props[x].clone();
                let ghost before = out@;
                out.push(p);
                proof {
                    assert(p@ == s[x as int]);
                    assert(prop_views(out@) =~= prop_views(before).push(p@));
                    assert(picked.push(x as int).map_values(|i: int| s[i]) =~= picked.map_values(
                        |i: int| s[i],
                    ).push(s[x as int]));
                    picked = picked.push(x as int);
                    assert(prop_views(out@) =~= picked.map_values(|i: int| s[i]));
                }
            }
            i = i + 1;
        }
        proof {
            let rest = ord.skip(i as int);
            assert(ord =~= ord.take(i as int) + rest);
            Seq::filter_distributes_over_add(ord.take(i as int), rest, positive);
            if i == order@.len() {
                reveal(Seq::filter);
                assert(rest =~= Seq::<int>::empty());
                assert(ord.filter(positive) =~= picked);
            }
            assert(picked.len() == out@.len()) by {
                assert(prop_views(out@).len() == picked.len());
            }
            assert(at_most(ord.filter(positive), k as nat) =~= picked);
            assert(positive_order(rel) =~= ord.filter(positive));
        }
        out
    }

    /// Renders the top `k` relevant propositions as a markdown section for
    /// the system prompt; empty when no proposition matches.
    pub fn render_for_prompt(&self, task_desc: &str, k: usize) -> (r: String)
        ensures
            r@ == rendered(relevant(self@, task_desc@, k as nat)),
    {
        let picks: Vec<SelfProposition> = self.retrieve_relevant(task_desc, k);
        let ghost pv = prop_views(picks@);
        if picks.len() == 0 {
            return String::new();
        }
        let mut head: String = owned("## Self-knowledge relevant to this ");
        head.append("task (Layer 3)\n\n");
        head.append(
            "These are propositions you have accumulated about your own tendencies. Use them to set priors, not as ground truth.\n\n",
        );
        let mut s: String = String::new();
        for i in 0..picks.len()
            invariant
                pv == prop_views(picks@),
                s@ == rendered_lines(pv.take(i as int)),
        {
            let p: &SelfProposition = &picks[i];
            s.append(fmt_u64(i as u64 + 1).as_str());
            s.append(". ");
            s.append(p.text.as_str());
            s.append("  (confidence=");
            s.append(fmt_two_decimals(p.confidence).as_str());
            s.append(", seen=");
            s.append(fmt_i64(p.evidence_count as i64).as_str());
            s.append(")\n");
            proof {
                assert(pv.take(i + 1).drop_last() =~= pv.take(i as int));
                assert(pv.take(i + 1).last() == p@);
            }
        }
        proof {
            assert(pv.take(pv.len() as int) =~= pv);
        }
        head.append(s.as_str());
        head
    }

    /// Whether every proposition can be observed `n` more times.
    pub fn has_evidence_room(&self, n: usize) -> (r: bool)
        ensures
            r == forall|i: int|
                0 <= i < self@.len() ==> (#[trigger] self@[i]).evidence_count <= i32::MAX - 1 - n,
    {
        for k in 0..self.props.len()
            invariant
                forall|i: int|
                    0 <= i < k ==> (#[trigger] self@[i]).evidence_count <= i32::MAX - 1 - n,
        {
            let c: i64 = self.props[k].evidence_count as i64;
            if n > 4_294_967_295 || c > i32::MAX as i64 - 1 - n as i64 {
                proof {
                    assert(self@[k as int].evidence_count == self.props@[k as int].evidence_count);
                }
                return false;
            }
        }
        true
    }

    /// Drops everything.
    pub fn clear(&mut self)
        ensures
            final(self)@ == Seq::<Proposition>::empty(),
    {
        self.props = Vec::new();
        proof {
            assert(self@ =~= Seq::<Proposition>::empty());
        }
    }
}

fn chars_empty(s: &str) -> (r: bool)
    ensures
        r == (s@.len() == 0),
{
    s.unicode_len() == 0
}

impl Default for SelfModelStore {
    fn default() -> (r: SelfModelStore)
        ensures
            r@ == Seq::<Proposition>::empty(),
    {
        SelfModelStore::new()
    }
}

/// A new claim is appended as it is; one that is there gains an observation,
/// a twentieth of confidence up to one, and the tags that it lacked, and
/// keeps its text. No other entry changes.
pub proof fn law_added_claim(s: Seq<Proposition>, p: Proposition, now_ms: i64)
    requires
        p.id.len() > 0,
        room_for(s, p),
        forall|i: int| 0 <= i < s.len() ==> (#[trigger] s[i]).confidence <= ONE,
    ensures
        ({
            let t = with_added(s, p, now_ms);
            &&& (forall|i: int| 0 <= i < s.len() ==> (#[trigger] s[i]).id != p.id) ==> t == s.push(p)
            &&& forall|i: int|
                0 <= i < s.len() && (#[trigger] s[i]).id == p.id && (forall|j: int|
                    0 <= j < i ==> (#[trigger] s[j]).id != p.id) ==> {
                    &&& t.len() == s.len()
                    &&& t[i].evidence_count == s[i].evidence_count + 1
                    &&& s[i].confidence <= t[i].confidence <= 1_000_000_000
                    &&& t[i].confidence == s[i].confidence + 50_000_000 || t[i].confidence
                        == 1_000_000_000
                    &&& t[i].text == s[i].text
                    &&& t[i].created_at_ms == s[i].created_at_ms
                    &&& t[i].updated_at_ms == now_ms
                    &&& forall|g: Seq<char>|
                        s[i].tags.contains(g) || p.tags.contains(g) <==> #[trigger] t[i].tags.contains(
                            g,
                        )
                    &&& forall|k: int| 0 <= k < s.len() && k != i ==> t[k] == #[trigger] s[k]
                }
        }),
{
    lemma_prop_index(s, p.id);
    let t = with_added(s, p, now_ms);
    assert forall|i: int|
        0 <= i < s.len() && (#[trigger] s[i]).id == p.id && (forall|j: int|
            0 <= j < i ==> (#[trigger] s[j]).id != p.id) implies {
        &&& t.len() == s.len()
        &&& t[i].evidence_count == s[i].evidence_count + 1
        &&& s[i].confidence <= t[i].confidence <= 1_000_000_000
        &&& t[i].confidence == s[i].confidence + 50_000_000 || t[i].confidence == 1_000_000_000
        &&& t[i].text == s[i].text
        &&& t[i].created_at_ms == s[i].created_at_ms
        &&& t[i].updated_at_ms == now_ms
        &&& forall|g: Seq<char>|
            s[i].tags.contains(g) || p.tags.contains(g) <==> #[trigger] t[i].tags.contains(g)
        &&& forall|k: int| 0 <= k < s.len() && k != i ==> t[k] == #[trigger] s[k]
    } by {
        lemma_prop_index_is(s, p.id, i);
        law_merged_tags(s[i].tags, p.tags);
    }
}

/// Merged tags are those of either list; the first list stays in front, and
/// nothing is added twice.
pub proof fn law_merged_tags(a: Seq<Seq<char>>, b: Seq<Seq<char>>)
    ensures
        forall|t: Seq<char>|
            a.contains(t) || b.contains(t) <==> #[trigger] merged_tags(a, b).contains(t),
        merged_tags(a, b).len() >= a.len(),
        merged_tags(a, b).take(a.len() as int) == a,
        a.no_duplicates() ==> merged_tags(a, b).no_duplicates(),
    decreases b.len(),
{
    let r = merged_tags(a, b);
    if b.len() > 0 {
        let d = b.drop_last();
        law_merged_tags(a, d);
        let m = merged_tags(a, d);
        assert(b[b.len() - 1] == b.last());
        assert(r.take(a.len() as int) =~= m.take(a.len() as int));
        if a.no_duplicates() && !m.contains(b.last()) {
            assert forall|i: int, j: int|
                0 <= i < r.len() && 0 <= j < r.len() && i != j implies r[i] != r[j] by {
                if i < m.len() && j < m.len() {
                    assert(m[i] != m[j]);
                } else if i < m.len() {
                    assert(m.contains(m[i]));
                } else {
                    assert(m.contains(m[j]));
                }
            }
        }
        assert forall|t: Seq<char>| a.contains(t) || b.contains(t) <==> #[trigger] r.contains(t) by {
            if b.contains(t) {
                let q = choose|q: int| 0 <= q < b.len() && b[q] == t;
                if q < d.len() {
                    assert(d[q] == t);
                }
            }
            if d.contains(t) {
                let q = choose|q: int| 0 <= q < d.len() && d[q] == t;
                assert(b[q] == t);
            }
            if m.contains(t) {
                let q = choose|q: int| 0 <= q < m.len() && m[q] == t;
                assert(r[q] == t);
            }
            if !m.contains(b.last()) {
                assert(r[m.len() as int] == b.last());
            }
            if r.contains(t) {
                let q = choose|q: int| 0 <= q < r.len() && r[q] == t;
                if q < m.len() {
                    assert(m[q] == t);
                }
            }
        }
    } else {
        assert(r.take(a.len() as int) =~= a);
    }
}

/// Reinforcing raises a confidence by just so much, weakening lowers it, and
/// neither leaves the range from zero to one; what one adds the other takes
/// away, where neither end was reached. No other entry changes.
pub proof fn law_confidence_moves(s: Seq<Proposition>, id: Seq<char>, delta: int, t: i64, i: int)
    requires
        0 <= i < s.len(),
        s[i].id == id,
        forall|j: int| 0 <= j < i ==> (#[trigger] s[j]).id != id,
        s[i].confidence <= ONE,
        delta >= 0,
    ensures
        ({
            let up = with_moved(s, id, delta, t);
            let down = with_moved(s, id, -delta, t);
            &&& s[i].confidence <= up[i].confidence <= 1_000_000_000
            &&& down[i].confidence <= s[i].confidence
            &&& s[i].confidence + delta <= 1_000_000_000 ==> up[i].confidence == s[i].confidence
                + delta
            &&& s[i].confidence + delta > 1_000_000_000 ==> up[i].confidence == 1_000_000_000
            &&& s[i].confidence >= delta ==> down[i].confidence == s[i].confidence - delta
            &&& s[i].confidence < delta ==> down[i].confidence == 0
            &&& up[i].evidence_count == s[i].evidence_count
            &&& up[i].text == s[i].text
            &&& up.len() == s.len() && forall|k: int|
                0 <= k < s.len() && k != i ==> up[k] == #[trigger] s[k]
        }),
{
    lemma_prop_index_is(s, id, i);
}

/// The surer of two claims with the same words is no less relevant; one that
/// shares no word with the task is not relevant at all; and with all words
/// in common the relevance is halfway between one half and one by its
/// confidence.
pub proof fn law_relevance(p: Proposition, q: Proposition, query: Set<Seq<char>>)
    requires
        p.text == q.text,
        p.tags == q.tags,
        p.confidence <= q.confidence <= ONE,
        query.finite(),
    ensures
        relevance(p, query) <= relevance(q, query),
        relevance(q, query) <= 1_000_000_000,
        prop_words(p, 3, false).disjoint(query) ==> relevance(p, query) == 0,
        query.len() > 0 && prop_words(p, 3, false) == query ==> relevance(p, query) == (
        1_000_000_000 + p.confidence) / 2,
{
    let w = prop_words(p, 3, false);
    lemma_prop_words_finite(p);
    law_overlap(w, query);
    let j = jaccard(w, query);
    let a = (ONE + p.confidence) as nat;
    let b = (ONE + q.confidence) as nat;
    assert(j * a <= j * b <= 2_000_000_000_000_000_000) by (nonlinear_arith)
        requires
            a <= b <= 2_000_000_000,
            j <= 1_000_000_000,
    ;
    assert(prop_words(q, 3, false) == w);
    assert(relevance(p, query) == (j * a) / 2_000_000_000);
    assert(relevance(q, query) == (j * b) / 2_000_000_000);
    if w.disjoint(query) {
        assert(0 * a == 0) by (nonlinear_arith);
    }
    if query.len() > 0 && w == query {
        assert(j == 1_000_000_000);
        assert((j * a) / 2_000_000_000 == a / 2) by (nonlinear_arith)
            requires
                j == 1_000_000_000,
        ;
    }
}

proof fn lemma_prop_words_finite(p: Proposition)
    ensures
        prop_words(p, 3, false).finite(),
{
    lemma_tag_words_finite(p.tags, 3, false);
    words(p.text, 3, false).lemma_cardinality_of_set();
}

pub proof fn lemma_tag_words_finite(tags: Seq<Seq<char>>, min: nat, drop_stopwords: bool)
    ensures
        tag_words(tags, min, drop_stopwords).finite(),
    decreases tags.len(),
{
    if tags.len() > 0 {
        lemma_tag_words_finite(tags.drop_last(), min, drop_stopwords);
        words(tags.last(), min, drop_stopwords).lemma_cardinality_of_set();
    }
}

/// What is picked for a task is at most as much as was asked for, all of it
/// relevant and the most relevant first; and where fewer were picked, nothing
/// relevant was left out.
pub proof fn law_most_relevant_first(s: Seq<Proposition>, task: Seq<char>, k: nat)
    ensures
        ({
            let q = words(task, 3, false).to_set();
            let r = relevant(s, task, k);
            &&& r.len() <= k
            &&& forall|i: int|
                0 <= i < r.len() ==> s.contains(#[trigger] r[i]) && relevance(r[i], q) > 0
            &&& forall|i: int, j: int|
                0 <= i < j < r.len() ==> relevance(#[trigger] r[i], q) >= relevance(
                    #[trigger] r[j],
                    q,
                )
            &&& r.len() < k ==> forall|i: int|
                0 <= i < s.len() && relevance(#[trigger] s[i], q) > 0 ==> r.contains(s[i])
        }),
{
    let q = words(task, 3, false).to_set();
    let keys = relevances(s, task);
    let n = keys.len();
    let d = descending(keys, n);
    let good = |i: int| keys[i] > 0;
    let f = d.filter(good);
    let r = relevant(s, task, k);
    law_descending(keys, n);
    lemma_filter_sorted(keys, d, good);
    assert forall|i: int| 0 <= i < r.len() implies s.contains(#[trigger] r[i]) && relevance(r[i], q)
        > 0 by {
        assert(f.contains(f[i]));
        assert(r[i] == s[f[i]]);
        assert(keys[f[i]] == relevance(s[f[i]], q));
    }
    assert forall|i: int, j: int| 0 <= i < j < r.len() implies relevance(#[trigger] r[i], q)
        >= relevance(#[trigger] r[j], q) by {
        assert(r[i] == s[f[i]] && r[j] == s[f[j]]);
        assert(f.contains(f[i]) && f.contains(f[j]));
        assert(keys[f[i]] >= keys[f[j]]);
    }
    if r.len() < k {
        assert forall|i: int| 0 <= i < s.len() && relevance(#[trigger] s[i], q) > 0 implies r.contains(
            s[i],
        ) by {
            law_descending_is_complete(keys, n, i);
            let p = choose|p: int| 0 <= p < d.len() && d[p] == i;
            assert(keys[i] == relevance(s[i], q));
            d.lemma_filter_contains(good, p);
            let z = choose|z: int| 0 <= z < f.len() && f[z] == i;
            assert(r[z] == s[i]);
        }
    }
}

proof fn lemma_filter_sorted(keys: Seq<int>, d: Seq<int>, good: spec_fn(int) -> bool)
    requires
        forall|i: int| 0 <= i < d.len() ==> 0 <= #[trigger] d[i] < keys.len(),
        forall|i: int, j: int|
            0 <= i < j < d.len() ==> keys[#[trigger] d[i]] >= keys[#[trigger] d[j]],
    ensures
        ({
            let f = d.filter(good);
            &&& forall|i: int| 0 <= i < f.len() ==> 0 <= #[trigger] f[i] < keys.len() && good(f[i])
            &&& forall|i: int, j: int|
                0 <= i < j < f.len() ==> keys[#[trigger] f[i]] >= keys[#[trigger] f[j]]
            &&& forall|i: int| 0 <= i < f.len() ==> d.contains(#[trigger] f[i])
        }),
    decreases d.len(),
{
    reveal(Seq::filter);
    if d.len() > 0 {
        let e = d.drop_last();
        assert forall|i: int, j: int| 0 <= i < j < e.len() implies keys[#[trigger] e[i]]
            >= keys[#[trigger] e[j]] by {
            assert(keys[d[i]] >= keys[d[j]]);
        }
        lemma_filter_sorted(keys, e, good);
        let g = e.filter(good);
        let f = d.filter(good);
        assert forall|i: int| 0 <= i < f.len() implies d.contains(#[trigger] f[i]) by {
            if i < g.len() {
                assert(f[i] == g[i]);
                let p = choose|p: int| 0 <= p < e.len() && e[p] == g[i];
                assert(d[p] == f[i]);
            } else {
                assert(d[d.len() - 1] == f[i]);
            }
        }
        assert forall|i: int, j: int| 0 <= i < j < f.len() implies keys[#[trigger] f[i]]
            >= keys[#[trigger] f[j]] by {
            if j < g.len() {
                assert(f[i] == g[i] && f[j] == g[j]);
            } else {
                assert(f[i] == g[i]);
                let p = choose|p: int| 0 <= p < e.len() && e[p] == g[i];
                assert(d[p] == f[i] && d[d.len() - 1] == f[j]);
            }
        }
    }
}

/// The section for the prompt shows the text of every claim that was picked,
/// and is empty exactly when none was.
pub proof fn law_section_shows_every_claim(picks: Seq<Proposition>, i: int)
    requires
        0 <= i < picks.len(),
    ensures
        shows(rendered(picks), picks[i].text),
        rendered(picks).len() > 0,
        rendered(Seq::<Proposition>::empty()).len() == 0,
{
    let a = lemma_lines_show(picks, i);
    let head = "## Self-knowledge relevant to this "@ + "task (Layer 3)\n\n"@
        + "These are propositions you have accumulated about your own tendencies. Use them to set priors, not as ground truth.\n\n"@;
    let all = rendered(picks);
    let t = picks[i].text;
    let k = head.len() + a;
    assert(all =~= head + rendered_lines(picks));
    assert(all.subrange(k, k + t.len()) =~= rendered_lines(picks).subrange(a, a + t.len()));
    reveal_strlit("## Self-knowledge relevant to this ");
}

proof fn lemma_lines_show(picks: Seq<Proposition>, i: int) -> (a: int)
    requires
        0 <= i < picks.len(),
    ensures
        0 <= a,
        a + picks[i].text.len() <= rendered_lines(picks).len(),
        rendered_lines(picks).subrange(a, a + picks[i].text.len()) == picks[i].text,
    decreases picks.len(),
{
    let all = rendered_lines(picks);
    let before = rendered_lines(picks.drop_last());
    let p = picks.last();
    let rest = "  (confidence="@ + two_decimals(p.confidence as nat) + ", seen="@ + dec_int(
        p.evidence_count as int,
    ) + ")\n"@;
    let lead = dec(picks.len()) + ". "@;
    assert(all =~= before + lead + p.text + rest);
    if i < picks.len() - 1 {
        let a = lemma_lines_show(picks.drop_last(), i);
        let t = picks[i].text;
        assert(all.subrange(a, a + t.len()) =~= before.subrange(a, a + t.len()));
        a
    } else {
        let a = (before.len() + lead.len()) as int;
        assert(all.subrange(a, a + p.text.len()) =~= p.text);
        a
    }
}

} // verus!
