//! Words of a text, sets of words, and how much two sets overlap.
use crate::fixed::ONE;
use crate::text::{
    char_alphanumeric, char_lowercase, char_whitespace, chars_of, is_alphanumeric, is_whitespace,
    lemma_views_push, same, string_of, to_lowercase, views,
};
use vstd::prelude::*;

verus! {

/// Common words that carry no content.
pub open spec fn stopword(w: Seq<char>) -> bool {
    w == "the"@ || w == "and"@ || w == "for"@ || w == "with"@ || w == "this"@ || w == "that"@ || w
        == "from"@ || w == "have"@ || w == "are"@ || w == "was"@ || w == "but"@ || w == "not"@ || w
        == "you"@ || w == "your"@ || w == "all"@ || w == "any"@ || w == "can"@ || w == "out"@ || w
        == "use"@ || w == "than"@ || w == "into"@ || w == "when"@ || w == "then"@ || w == "what"@
        || w == "which"@ || w == "while"@
}

/// Whether a word is one of the common words.
pub fn is_stopword(s: &str) -> (r: bool)
    ensures
        r == stopword(s@),
{
    same(s, "the") || same(s, "and") || same(s, "for") || same(s, "with") || same(s, "this")
        || same(s, "that") || same(s, "from") || same(s, "have") || same(s, "are") || same(s, "was")
        || same(s, "but") || same(s, "not") || same(s, "you") || same(s, "your") || same(s, "all")
        || same(s, "any") || same(s, "can") || same(s, "out") || same(s, "use") || same(s, "than")
        || same(s, "into") || same(s, "when") || same(s, "then") || same(s, "what") || same(
        s,
        "which",
    ) || same(s, "while")
}

/// Whether a word is kept: it has at least `min` characters, at least one,
/// and is no stopword where those are dropped.
pub open spec fn kept(w: Seq<char>, min: nat, drop_stopwords: bool) -> bool {
    w.len() > 0 && w.len() >= min && !(drop_stopwords && stopword(w))
}

/// The state of a scan for words: the words found so far and the lowercase
/// text of the alphanumeric run that is still open.
pub open spec fn scan(s: Seq<char>, min: nat, drop_stopwords: bool) -> (
    Seq<Seq<char>>,
    Seq<char>,
)
    decreases s.len(),
{
    if s.len() == 0 {
        (seq![], seq![])
    } else {
        let (out, run) = scan(s.drop_last(), min, drop_stopwords);
        if char_alphanumeric(s.last()) {
            (out, run + char_lowercase(s.last()))
        } else if kept(run, min, drop_stopwords) {
            (out.push(run), seq![])
        } else {
            (out, seq![])
        }
    }
}

/// The words of a text: its maximal alphanumeric runs in lower case, as far
/// as they are kept.
pub open spec fn words(s: Seq<char>, min: nat, drop_stopwords: bool) -> Seq<Seq<char>> {
    let (out, run) = scan(s, min, drop_stopwords);
    if kept(run, min, drop_stopwords) {
        out.push(run)
    } else {
        out
    }
}

fn keep_run(run: &Vec<char>, min: usize, drop_stopwords: bool) -> (r: Option<String>)
    ensures
        match r {
            Some(w) => kept(run@, min as nat, drop_stopwords) && w@ == run@,
            None => !kept(run@, min as nat, drop_stopwords),
        },
{
    if run.len() == 0 || run.len() < min {
        return None;
    }
    let w: String = string_of(run, 0, run.len());
    proof {
        assert(run@.subrange(0, run@.len() as int) =~= run@);
    }
    if drop_stopwords && is_stopword(w.as_str()) {
        None
    } else {
        Some(w)
    }
}

/// Splits a text into its words.
pub fn split_words(s: &str, min: usize, drop_stopwords: bool) -> (r: Vec<String>)
    ensures
        views(r@) == words(s@, min as nat, drop_stopwords),
{
    let v: Vec<char> = chars_of(s);
    let mut out: Vec<String> = Vec::new();
    let mut run: Vec<char> = Vec::new();
    proof {
        assert(views(out@) =~= seq![]);
        assert(run@ =~= seq![]);
    }
    for i in 0..v.len()
        invariant
            (views(out@), run@) == scan(v@.take(i as int), min as nat, drop_stopwords),
    {
        let c: char = v[i];
        proof {
            assert(v@.take(i + 1).drop_last() =~= v@.take(i as int));
            assert(v@.take(i + 1).last() == c);
        }
        if is_alphanumeric(c) {
            let mut low: Vec<char> = to_lowercase(c);
            run.append(&mut low);
        } else {
            match keep_run(&run, min, drop_stopwords) {
                Some(w) => {
                    proof {
                        lemma_views_push(out@, w);
                    }
                    out.push(w);
                },
                None => {},
            }
            run = Vec::new();
            proof {
                assert(run@ =~= seq![]);
            }
        }
    }
    proof {
        assert(v@.take(v@.len() as int) =~= v@);
    }
    match keep_run(&run, min, drop_stopwords) {
        Some(w) => {
            proof {
                lemma_views_push(out@, w);
            }
            out.push(w);
        },
        None => {},
    }
    out
}

/// A set of strings, kept in the order in which they were first added.
#[derive(Debug)]
pub struct WordSet {
    pub items: Vec<String>,
}

impl View for WordSet {
    type V = Set<Seq<char>>;

    open spec fn view(&self) -> Set<Seq<char>> {
        views(self.items@).to_set()
    }
}

/// A sequence without the elements that occurred before.
pub open spec fn distinct(s: Seq<Seq<char>>) -> Seq<Seq<char>>
    decreases s.len(),
{
    if s.len() == 0 {
        seq![]
    } else {
        let d = distinct(s.drop_last());
        if d.contains(s.last()) {
            d
        } else {
            d.push(s.last())
        }
    }
}

/// The share of two sets' union that lies in both, in billionths rounded
/// down; zero when either is empty.
pub open spec fn jaccard(a: Set<Seq<char>>, b: Set<Seq<char>>) -> nat {
    if a.len() == 0 || b.len() == 0 {
        0
    } else {
        (a.intersect(b).len() * ONE as nat) / a.union(b).len()
    }
}

impl WordSet {
    /// The invariant: nothing occurs twice.
    pub open spec fn wf(&self) -> bool {
        views(self.items@).no_duplicates()
    }

    pub fn new() -> (r: WordSet)
        ensures
            r.wf(),
            r@ == Set::<Seq<char>>::empty(),
            views(r.items@) == Seq::<Seq<char>>::empty(),
    {
        let r = WordSet { items: Vec::new() };
        proof {
            assert(views(r.items@) =~= Seq::<Seq<char>>::empty());
            assert(r@ =~= Set::<Seq<char>>::empty());
        }
        r
    }

    pub fn contains(&self, w: &str) -> (r: bool)
        ensures
            r == self@.contains(w@),
            r == views(self.items@).contains(w@),
    {
        let mut i: usize = 0;
        while i < self.items.len()
            invariant
                i <= self.items@.len(),
                forall|j: int| 0 <= j < i ==> #[trigger] views(self.items@)[j] != w@,
            decreases self.items@.len() - i,
        {
            if same(self.items[i].as_str(), w) {
                proof {
                    assert(views(self.items@)[i as int] == w@);
                }
                return true;
            }
            i = i + 1;
        }
        false
    }

    /// Adds a string unless it is there already.
    pub fn insert(&mut self, w: &str)
        requires
            old(self).wf(),
        ensures
            final(self).wf(),
            final(self)@ == old(self)@.insert(w@),
            views(final(self).items@) == if old(self)@.contains(w@) {
                views(old(self).items@)
            } else {
                views(old(self).items@).push(w@)
            },
    {
        let ghost before = views(self.items@);
        if !self.contains(w) {
            let s: String = w.to_string();
            proof {
                lemma_views_push(self.items@, s);
                lemma_to_set_push(before, w@);
            }
            self.items.push(s);
        } else {
            proof {
                assert(self@.insert(w@) =~= self@);
            }
        }
    }

    /// Adds all strings of a list.
    pub fn extend(&mut self, more: &Vec<String>)
        requires
            old(self).wf(),
        ensures
            final(self).wf(),
            final(self)@ == old(self)@.union(views(more@).to_set()),
    {
        proof {
            assert(views(more@).take(0).to_set() =~= Set::<Seq<char>>::empty());
            assert(self@.union(Set::empty()) =~= self@);
        }
        for i in 0..more.len()
            invariant
                self.wf(),
                self@ == old(self)@.union(views(more@).take(i as int).to_set()),
        {
            self.insert(more[i].as_str());
            proof {
                let t = views(more@).take(i as int);
                assert(views(more@).take(i + 1) =~= t.push(more@[i as int]@));
                lemma_to_set_push(t, more@[i as int]@);
                assert(self@ =~= old(self)@.union(t.push(more@[i as int]@).to_set()));
            }
        }
        proof {
            assert(views(more@).take(more@.len() as int) =~= views(more@));
        }
    }

    /// The set of all strings of a list.
    pub fn of(list: &Vec<String>) -> (r: WordSet)
        ensures
            r.wf(),
            r@ == views(list@).to_set(),
            views(r.items@) == distinct(views(list@)),
    {
        let mut s: WordSet = WordSet::new();
        let ghost all = views(list@);
        proof {
            assert(all.take(0).to_set() =~= Set::<Seq<char>>::empty());
            assert(distinct(all.take(0)) =~= Seq::empty());
        }
        for i in 0..list.len()
            invariant
                s.wf(),
                all == views(list@),
                s@ == all.take(i as int).to_set(),
                views(s.items@) == distinct(all.take(i as int)),
        {
            proof {
                let t = all.take(i as int);
                assert(all.take(i + 1) =~= t.push(all[i as int]));
                assert(all.take(i + 1).drop_last() =~= t);
                lemma_to_set_push(t, all[i as int]);
                assert(s@.contains(all[i as int]) == views(s.items@).contains(all[i as int]));
            }
            s.insert(list[i].as_str());
        }
        proof {
            assert(all.take(all.len() as int) =~= all);
        }
        s
    }

    pub fn len(&self) -> (r: usize)
        requires
            self.wf(),
        ensures
            r == self@.len(),
            r == self.items@.len(),
            self@.finite(),
    {
        proof {
            views(self.items@).unique_seq_to_set();
        }
        self.items.len()
    }

    fn shared(&self, other: &WordSet) -> (r: usize)
        requires
            self.wf(),
        ensures
            r == self@.intersect(other@).len(),
            r <= self@.len(),
    {
        let mut n: usize = 0;
        let ghost mine = views(self.items@);
        proof {
            assert(mine.take(0).to_set().intersect(other@) =~= Set::<Seq<char>>::empty());
        }
        for i in 0..self.items.len()
            invariant
                mine == views(self.items@),
                mine.no_duplicates(),
                n <= i,
                n == mine.take(i as int).to_set().intersect(other@).len(),
                mine.take(i as int).to_set().finite(),
        {
            proof {
                let t = mine.take(i as int);
                assert(mine.take(i + 1) =~= t.push(mine[i as int]));
                lemma_to_set_push(t, mine[i as int]);
                assert(!t.contains(mine[i as int]));
                if other@.contains(mine[i as int]) {
                    assert(t.push(mine[i as int]).to_set().intersect(other@) =~= t.to_set().intersect(
                        other@,
                    ).insert(mine[i as int]));
                } else {
                    assert(t.push(mine[i as int]).to_set().intersect(other@) =~= t.to_set().intersect(
                        other@,
                    ));
                }
            }
            if other.contains(self.items[i].as_str()) {
                n = n + 1;
            }
        }
        proof {
            assert(mine.take(mine.len() as int) =~= mine);
            mine.unique_seq_to_set();
        }
        n
    }

    /// The share of the union that lies in both sets, in billionths.
    pub fn jaccard(&self, other: &WordSet) -> (r: u64)
        requires
            self.wf(),
            other.wf(),
        ensures
            r == jaccard(self@, other@),
            r <= ONE,
    {
        let a: usize = self.len();
        let b: usize = other.len();
        if a == 0 || b == 0 {
            return 0;
        }
        let i: usize = self.shared(other);
        proof {
            vstd::set_lib::lemma_set_intersect_union_lens(self@, other@);
            vstd::set_lib::lemma_len_intersect(other@, self@);
            assert(self@.intersect(other@) =~= other@.intersect(self@));
        }
        let u: u128 = a as u128 + b as u128 - i as u128;
        proof {
            let x = i as int;
            let y = u as int;
            assert(0 <= (x * 1_000_000_000) / y <= 1_000_000_000) by (nonlinear_arith)
                requires
                    0 <= x <= y,
                    y > 0,
            ;
        }
        ((i as u128 * ONE as u128) / u) as u64
    }
}

/// Appending one element adds it to the set of elements.
pub proof fn lemma_to_set_push<T>(s: Seq<T>, x: T)
    ensures
        s.push(x).to_set() == s.to_set().insert(x),
{
    broadcast use vstd::seq_lib::group_seq_properties;

    assert(s.push(x).to_set() =~= s.to_set().insert(x)) by {
        assert forall|y: T| s.push(x).to_set().contains(y) == s.to_set().insert(x).contains(y) by {
            if s.contains(y) {
                let k = choose|k: int| 0 <= k < s.len() && s[k] == y;
                assert(s.push(x)[k] == y);
            }
            if y == x {
                assert(s.push(x)[s.len() as int] == y);
            }
            if s.push(x).contains(y) && y != x {
                let k = choose|k: int| 0 <= k < s.push(x).len() && s.push(x)[k] == y;
                assert(s[k] == y);
            }
        }
    }
}

/// The state of a scan for fields between white space: the fields found so
/// far and the one that is still open.
pub open spec fn field_scan(s: Seq<char>) -> (Seq<Seq<char>>, Seq<char>)
    decreases s.len(),
{
    if s.len() == 0 {
        (seq![], seq![])
    } else {
        let (out, run) = field_scan(s.drop_last());
        if !char_whitespace(s.last()) {
            (out, run.push(s.last()))
        } else if run.len() > 0 {
            (out.push(run), seq![])
        } else {
            (out, seq![])
        }
    }
}

/// The maximal runs of characters that are no white space.
pub open spec fn fields(s: Seq<char>) -> Seq<Seq<char>> {
    let (out, run) = field_scan(s);
    if run.len() > 0 {
        out.push(run)
    } else {
        out
    }
}

/// Splits a text at white space.
pub fn split_whitespace(s: &str) -> (r: Vec<String>)
    ensures
        views(r@) == fields(s@),
{
    let v: Vec<char> = chars_of(s);
    let mut out: Vec<String> = Vec::new();
    let mut run: Vec<char> = Vec::new();
    proof {
        assert(views(out@) =~= seq![]);
        assert(run@ =~= seq![]);
    }
    for i in 0..v.len()
        invariant
            (views(out@), run@) == field_scan(v@.take(i as int)),
    {
        let c: char = v[i];
        proof {
            assert(v@.take(i + 1).drop_last() =~= v@.take(i as int));
            assert(v@.take(i + 1).last() == c);
        }
        if !is_whitespace(c) {
            run.push(c);
        } else {
            if run.len() > 0 {
                let w: String = string_of(&run, 0, run.len());
                proof {
                    assert(run@.subrange(0, run@.len() as int) =~= run@);
                    lemma_views_push(out@, w);
                }
                out.push(w);
            }
            run = Vec::new();
            proof {
                assert(run@ =~= seq![]);
            }
        }
    }
    proof {
        assert(v@.take(v@.len() as int) =~= v@);
    }
    if run.len() > 0 {
        let w: String = string_of(&run, 0, run.len());
        proof {
            assert(run@.subrange(0, run@.len() as int) =~= run@);
            lemma_views_push(out@, w);
        }
        out.push(w);
    }
    out
}

/// Every word is long enough and no empty one, and none is a common word
/// where those are dropped.
pub proof fn law_words_are_kept(s: Seq<char>, min: nat, drop_stopwords: bool, i: int)
    requires
        0 <= i < words(s, min, drop_stopwords).len(),
    ensures
        words(s, min, drop_stopwords)[i].len() >= min,
        words(s, min, drop_stopwords)[i].len() > 0,
        drop_stopwords ==> !stopword(words(s, min, drop_stopwords)[i]),
{
    lemma_scan_kept(s, min, drop_stopwords);
}

proof fn lemma_scan_kept(s: Seq<char>, min: nat, drop_stopwords: bool)
    ensures
        forall|i: int|
            0 <= i < scan(s, min, drop_stopwords).0.len() ==> kept(
                #[trigger] scan(s, min, drop_stopwords).0[i],
                min,
                drop_stopwords,
            ),
    decreases s.len(),
{
    if s.len() > 0 {
        lemma_scan_kept(s.drop_last(), min, drop_stopwords);
        let before = scan(s.drop_last(), min, drop_stopwords).0;
        let out = scan(s, min, drop_stopwords).0;
        assert forall|i: int| 0 <= i < out.len() implies kept(
            #[trigger] out[i],
            min,
            drop_stopwords,
        ) by {
            if i < before.len() {
                assert(out[i] == before[i]);
            }
        }
    }
}

/// Whatever is neither a letter nor a digit parts words: the words on both
/// sides of it are those of the two sides, in their order.
pub proof fn law_words_are_parted(
    a: Seq<char>,
    c: char,
    b: Seq<char>,
    min: nat,
    drop_stopwords: bool,
)
    requires
        !char_alphanumeric(c),
    ensures
        words(a.push(c) + b, min, drop_stopwords) == words(a, min, drop_stopwords) + words(
            b,
            min,
            drop_stopwords,
        ),
{
    lemma_scan_parted(a, c, b, min, drop_stopwords);
    let x = words(a, min, drop_stopwords);
    let (out, run) = scan(b, min, drop_stopwords);
    assert((x + out).push(run) =~= x + out.push(run));
}

proof fn lemma_scan_parted(
    a: Seq<char>,
    c: char,
    b: Seq<char>,
    min: nat,
    drop_stopwords: bool,
)
    requires
        !char_alphanumeric(c),
    ensures
        scan(a.push(c) + b, min, drop_stopwords) == (
            words(a, min, drop_stopwords) + scan(b, min, drop_stopwords).0,
            scan(b, min, drop_stopwords).1,
        ),
    decreases b.len(),
{
    let x = words(a, min, drop_stopwords);
    if b.len() == 0 {
        assert(a.push(c) + b =~= a.push(c));
        assert(a.push(c).drop_last() =~= a);
        assert(scan(b, min, drop_stopwords).0 =~= Seq::<Seq<char>>::empty());
        assert(x + Seq::<Seq<char>>::empty() =~= x);
    } else {
        let d = b.drop_last();
        lemma_scan_parted(a, c, d, min, drop_stopwords);
        assert((a.push(c) + b).drop_last() =~= a.push(c) + d);
        let (out, run) = scan(d, min, drop_stopwords);
        assert((x + out).push(run) =~= x + out.push(run));
    }
}

/// A text in lower case.
pub open spec fn lowered(s: Seq<char>) -> Seq<char>
    decreases s.len(),
{
    if s.len() == 0 {
        seq![]
    } else {
        lowered(s.drop_last()) + char_lowercase(s.last())
    }
}

/// A text of letters and digits is one word, in lower case, unless it is too
/// short or a common word.
pub proof fn law_one_run_is_one_word(s: Seq<char>, min: nat, drop_stopwords: bool)
    requires
        forall|i: int| 0 <= i < s.len() ==> char_alphanumeric(#[trigger] s[i]),
    ensures
        lowered(s).len() > 0 && lowered(s).len() >= min && !(drop_stopwords && stopword(lowered(s)))
            ==> words(s, min, drop_stopwords) == seq![lowered(s)],
        lowered(s).len() < min || (drop_stopwords && stopword(lowered(s))) ==> words(
            s,
            min,
            drop_stopwords,
        ).len() == 0,
{
    lemma_scan_run(s, min, drop_stopwords);
    assert(Seq::<Seq<char>>::empty().push(lowered(s)) =~= seq![lowered(s)]);
}

proof fn lemma_scan_run(s: Seq<char>, min: nat, drop_stopwords: bool)
    requires
        forall|i: int| 0 <= i < s.len() ==> char_alphanumeric(#[trigger] s[i]),
    ensures
        scan(s, min, drop_stopwords) == (Seq::<Seq<char>>::empty(), lowered(s)),
    decreases s.len(),
{
    if s.len() > 0 {
        let d = s.drop_last();
        assert forall|i: int| 0 <= i < d.len() implies char_alphanumeric(#[trigger] d[i]) by {
            assert(d[i] == s[i]);
        }
        lemma_scan_run(d, min, drop_stopwords);
        assert(char_alphanumeric(s[s.len() - 1]));
    }
}

/// The overlap of two sets lies between zero and one and does not depend on
/// their order. It is one for equal sets and zero for sets without a common
/// word, and a common word more is never worth less.
pub proof fn law_overlap(a: Set<Seq<char>>, b: Set<Seq<char>>)
    requires
        a.finite(),
        b.finite(),
    ensures
        jaccard(a, b) <= 1_000_000_000,
        jaccard(a, b) == jaccard(b, a),
        a.len() > 0 ==> jaccard(a, a) == 1_000_000_000,
        a.disjoint(b) ==> jaccard(a, b) == 0,
        a.len() > 0 && a.subset_of(b) ==> jaccard(a, b) * b.len() <= 1_000_000_000 * a.len() < (
        jaccard(a, b) + 1) * b.len(),
{
    let x = a.intersect(b);
    let y = a.union(b);
    assert(b.intersect(a) =~= x);
    assert(b.union(a) =~= y);
    assert(a.intersect(a) =~= a);
    assert(a.union(a) =~= a);
    vstd::set_lib::lemma_len_subset(x, y);
    vstd::set_lib::lemma_len_subset(a, y);
    let n = x.len();
    let m = y.len();
    if m > 0 {
        assert((n * 1_000_000_000) / m <= 1_000_000_000) by (nonlinear_arith)
            requires
                n <= m,
                m > 0,
        ;
    }
    if a.len() > 0 {
        let k = a.len();
        assert((k * 1_000_000_000) / k == 1_000_000_000) by (nonlinear_arith)
            requires
                k > 0,
        ;
    }
    if a.disjoint(b) {
        assert(x =~= Set::empty());
        if m > 0 {
            assert(0nat / m == 0) by (nonlinear_arith)
                requires
                    m > 0,
            ;
        }
    }
    if a.len() > 0 && a.subset_of(b) {
        assert(x =~= a);
        assert(y =~= b);
        vstd::set_lib::lemma_len_subset(a, b);
        let k = a.len();
        let j = (k * 1_000_000_000) / m;
        assert(j * m <= 1_000_000_000 * k < (j + 1) * m) by (nonlinear_arith)
            requires
                j == (k * 1_000_000_000) / m,
                m > 0,
        ;
    }
}

/// The elements of a sequence without its repetitions: the same elements,
/// each once.
pub proof fn law_distinct_drops_repetitions(s: Seq<Seq<char>>)
    ensures
        distinct(s).no_duplicates(),
        forall|t: Seq<char>| #[trigger] distinct(s).contains(t) <==> s.contains(t),
    decreases s.len(),
{
    if s.len() > 0 {
        let d = s.drop_last();
        law_distinct_drops_repetitions(d);
        let u = distinct(d);
        let r = distinct(s);
        assert(s[s.len() - 1] == s.last());
        if !u.contains(s.last()) {
            assert forall|i: int, j: int|
                0 <= i < r.len() && 0 <= j < r.len() && i != j implies r[i] != r[j] by {
                if i < u.len() && j < u.len() {
                    assert(u[i] != u[j]);
                } else if i < u.len() {
                    assert(u.contains(u[i]));
                } else {
                    assert(u.contains(u[j]));
                }
            }
        }
        assert forall|t: Seq<char>| #[trigger] r.contains(t) <==> s.contains(t) by {
            if d.contains(t) {
                let q = choose|q: int| 0 <= q < d.len() && d[q] == t;
                assert(s[q] == t);
                assert(u.contains(t));
                let k = choose|k: int| 0 <= k < u.len() && u[k] == t;
                assert(r[k] == t);
            }
            if s.contains(t) && !d.contains(t) {
                let q = choose|q: int| 0 <= q < s.len() && s[q] == t;
                if q < d.len() {
                    assert(d[q] == t);
                }
                assert(t == s.last());
                assert(!u.contains(t));
                assert(r[u.len() as int] == t);
            }
            if r.contains(t) {
                let k = choose|k: int| 0 <= k < r.len() && r[k] == t;
                if k < u.len() {
                    assert(u[k] == t);
                    assert(u.contains(t));
                    assert(d.contains(t));
                }
            }
        }
    }
}

proof fn lemma_fields_after(a: Seq<char>, c: char, b: Seq<char>)
    requires
        char_whitespace(c),
    ensures
        field_scan(a.push(c) + b).0 == fields(a) + field_scan(b).0,
        field_scan(a.push(c) + b).1 == field_scan(b).1,
    decreases b.len(),
{
    if b.len() == 0 {
        assert(a.push(c) + b =~= a.push(c));
        assert(a.push(c).drop_last() =~= a);
        assert(fields(a) + field_scan(b).0 =~= fields(a));
    } else {
        lemma_fields_after(a, c, b.drop_last());
        assert((a.push(c) + b).drop_last() =~= a.push(c) + b.drop_last());
        let y = field_scan(b.drop_last());
        assert((fields(a) + y.0).push(y.1) =~= fields(a) + y.0.push(y.1));
    }
}

/// White space parts a text: what stands before it and what stands after it
/// is split on its own.
pub proof fn law_white_space_parts(a: Seq<char>, c: char, b: Seq<char>)
    requires
        char_whitespace(c),
    ensures
        fields(a.push(c) + b) == fields(a) + fields(b),
{
    lemma_fields_after(a, c, b);
    let y = field_scan(b);
    assert((fields(a) + y.0).push(y.1) =~= fields(a) + y.0.push(y.1));
}

/// A text without white space is one piece, and an empty one none.
pub proof fn law_one_field(s: Seq<char>)
    requires
        forall|i: int| 0 <= i < s.len() ==> !char_whitespace(#[trigger] s[i]),
    ensures
        s.len() > 0 ==> fields(s) == seq![s],
        s.len() == 0 ==> fields(s).len() == 0,
{
    lemma_field_run(s);
    if s.len() > 0 {
        assert(fields(s) =~= seq![s]);
    }
}

proof fn lemma_field_run(s: Seq<char>)
    requires
        forall|i: int| 0 <= i < s.len() ==> !char_whitespace(#[trigger] s[i]),
    ensures
        field_scan(s).0.len() == 0,
        field_scan(s).1 == s,
    decreases s.len(),
{
    if s.len() > 0 {
        let d = s.drop_last();
        assert forall|i: int| 0 <= i < d.len() implies !char_whitespace(#[trigger] d[i]) by {
            assert(d[i] == s[i]);
        }
        lemma_field_run(d);
        assert(!char_whitespace(s[s.len() - 1]));
        assert(d.push(s.last()) =~= s);
    } else {
        assert(s =~= Seq::<char>::empty());
    }
}

} // verus!
