//! A small publish/subscribe bus for coordination within one run.
//!
//! A channel comes into being when it is first used and keeps the most
//! recent messages, 256 unless set otherwise.
use crate::ambient::now_millis;
use crate::order::{law_lex_sorted, lex_less, lex_sorted, sort_strings};
use crate::text::{lemma_views_push, owned, same, views};
use crate::window::{drop_oldest, keep_last};
use vstd::prelude::*;

verus! {

/// One message published on a channel.
#[derive(Debug)]
pub struct ChannelMessage {
    /// Increasing number, scoped to the channel.
    pub id: u64,
    /// Milliseconds since the Unix epoch when the message was published.
    pub epoch_ms: i64,
    pub sender: String,
    pub text: String,
}

/// A message as a mathematical value.
pub struct Posted {
    pub id: u64,
    pub epoch_ms: i64,
    pub sender: Seq<char>,
    pub text: Seq<char>,
}

impl View for ChannelMessage {
    type V = Posted;

    open spec fn view(&self) -> Posted {
        Posted { id: self.id, epoch_ms: self.epoch_ms, sender: self.sender@, text: self.text@ }
    }
}

/// The views of a sequence of messages.
pub open spec fn posted_views(s: Seq<ChannelMessage>) -> Seq<Posted> {
    s.map_values(|m: ChannelMessage| m@)
}

impl Clone for ChannelMessage {
    fn clone(&self) -> (r: ChannelMessage)
        ensures
            r@ == self@,
    {
        ChannelMessage {
            id: self.id,
            epoch_ms: self.epoch_ms,
            sender: self.sender.clone(),
            text: self.text.clone(),
        }
    }
}

/// What is known of a channel.
#[derive(Debug, Clone)]
pub struct ChannelInfo {
    pub name: String,
    pub message_count: usize,
    pub latest_id: u64,
}

/// The views of a sequence of channel summaries.
pub open spec fn info_views(s: Seq<ChannelInfo>) -> Seq<(Seq<char>, usize, u64)> {
    s.map_values(|i: ChannelInfo| (i.name@, i.message_count, i.latest_id))
}

/// A channel: its messages, oldest first, and the last number given out.
#[derive(Debug)]
pub struct Channel {
    pub name: String,
    pub messages: Vec<ChannelMessage>,
    pub next_id: u64,
}

/// A channel as a mathematical value.
pub struct Line {
    pub name: Seq<char>,
    pub messages: Seq<Posted>,
    pub next_id: u64,
}

impl View for Channel {
    type V = Line;

    open spec fn view(&self) -> Line {
        Line { name: self.name@, messages: posted_views(self.messages@), next_id: self.next_id }
    }
}

/// The views of a sequence of channels.
pub open spec fn line_views(s: Seq<Channel>) -> Seq<Line> {
    s.map_values(|c: Channel| c@)
}

#[derive(Debug)]
pub struct ChannelBus {
    pub channels: Vec<Channel>,
    pub ring_size: usize,
}

/// A bus as a mathematical value.
pub struct BusState {
    pub lines: Seq<Line>,
    pub ring_size: usize,
}

impl View for ChannelBus {
    type V = BusState;

    open spec fn view(&self) -> BusState {
        BusState { lines: line_views(self.channels@), ring_size: self.ring_size }
    }
}

/// The position of a channel, or the length when there is none of that name.
pub open spec fn line_index(ls: Seq<Line>, name: Seq<char>) -> int
    decreases ls.len(),
{
    if ls.len() == 0 || ls[0].name == name {
        0
    } else {
        1 + line_index(ls.skip(1), name)
    }
}

/// The channel of a name; an empty one where there is none yet.
pub open spec fn line_of(s: BusState, name: Seq<char>) -> Line {
    let i = line_index(s.lines, name);
    if i < s.lines.len() {
        s.lines[i]
    } else {
        Line { name, messages: Seq::empty(), next_id: 0 }
    }
}

/// A channel after a message: it gets the next number, and the oldest
/// messages beyond the ring go.
pub open spec fn posted(
    l: Line,
    sender: Seq<char>,
    text: Seq<char>,
    now_ms: i64,
    ring: nat,
) -> Line {
    let id = (l.next_id + 1) as u64;
    Line {
        name: l.name,
        messages: keep_last(
            l.messages.push(Posted { id, epoch_ms: now_ms, sender, text }),
            ring,
        ),
        next_id: id,
    }
}

/// A bus after a message.
pub open spec fn bus_after(
    s: BusState,
    name: Seq<char>,
    sender: Seq<char>,
    text: Seq<char>,
    now_ms: i64,
) -> BusState {
    let i = line_index(s.lines, name);
    let l = posted(line_of(s, name), sender, text, now_ms, s.ring_size as nat);
    BusState {
        lines: if i < s.lines.len() {
            s.lines.update(i, l)
        } else {
            s.lines.push(l)
        },
        ..s
    }
}

/// The messages of a channel with a number above `since`.
pub open spec fn newer(ms: Seq<Posted>, since: u64) -> Seq<Posted> {
    ms.filter(|m: Posted| m.id > since)
}

/// The names of all channels.
pub open spec fn line_names(ls: Seq<Line>) -> Seq<Seq<char>> {
    ls.map_values(|l: Line| l.name)
}

/// The summary of a channel.
pub open spec fn summary(l: Line) -> (Seq<char>, usize, u64) {
    (
        l.name,
        l.messages.len() as usize,
        if l.messages.len() > 0 {
            l.messages.last().id
        } else {
            0
        },
    )
}

/// The summaries of all channels, sorted by name.
pub open spec fn summaries(s: BusState) -> Seq<(Seq<char>, usize, u64)> {
    lex_sorted(line_names(s.lines)).map_values(|n: Seq<char>| summary(line_of(s, n)))
}

/// Numbers start at one, rise along a channel, and none exceeds the last one
/// given out.
pub open spec fn numbered(l: Line) -> bool {
    &&& forall|i: int, j: int|
        0 <= i < j < l.messages.len() ==> (#[trigger] l.messages[i]).id < (
        #[trigger] l.messages[j]).id
    &&& forall|i: int| 0 <= i < l.messages.len() ==> 1 <= (#[trigger] l.messages[i]).id <= l.next_id
}

/// The invariant of a bus: names are distinct, numbers rise, and the ring
/// holds at least one message.
pub open spec fn bus_ok(s: BusState) -> bool {
    &&& s.ring_size >= 1
    &&& forall|i: int, j: int|
        0 <= i < j < s.lines.len() ==> (#[trigger] s.lines[i]).name != (#[trigger] s.lines[j]).name
    &&& forall|i: int| 0 <= i < s.lines.len() ==> numbered(#[trigger] s.lines[i])
}

proof fn lemma_line_index(ls: Seq<Line>, name: Seq<char>)
    ensures
        0 <= line_index(ls, name) <= ls.len(),
        line_index(ls, name) < ls.len() ==> ls[line_index(ls, name)].name == name,
        forall|i: int| 0 <= i < line_index(ls, name) ==> (#[trigger] ls[i]).name != name,
    decreases ls.len(),
{
    if ls.len() > 0 && ls[0].name != name {
        let t = ls.skip(1);
        lemma_line_index(t, name);
        assert forall|i: int| 0 <= i < line_index(ls, name) implies (#[trigger] ls[i]).name
            != name by {
            if i > 0 {
                assert(ls[i] == t[i - 1]);
            }
        }
    }
}

proof fn lemma_line_index_is(ls: Seq<Line>, name: Seq<char>, k: int)
    requires
        0 <= k <= ls.len(),
        k < ls.len() ==> ls[k].name == name,
        forall|i: int| 0 <= i < k ==> (#[trigger] ls[i]).name != name,
    ensures
        line_index(ls, name) == k,
{
    lemma_line_index(ls, name);
    let d = line_index(ls, name);
    if d < k {
        assert(ls[d].name != name);
    } else if k < d {
        assert(ls[k].name != name);
    }
}

/// Publishing keeps the invariant, and numbers keep rising.
pub proof fn law_publish_keeps_order(
    s: BusState,
    name: Seq<char>,
    sender: Seq<char>,
    text: Seq<char>,
    now_ms: i64,
)
    requires
        bus_ok(s),
        line_of(s, name).next_id < u64::MAX,
    ensures
        bus_ok(bus_after(s, name, sender, text, now_ms)),
{
    lemma_line_index(s.lines, name);
    let l = line_of(s, name);
    let i = line_index(s.lines, name);
    let p = posted(l, sender, text, now_ms, s.ring_size as nat);
    let all = l.messages.push(p.messages.last());
    assert(numbered(l));
    assert forall|a: int, b: int| 0 <= a < b < p.messages.len() implies (#[trigger] p.messages[a]).id
        < (#[trigger] p.messages[b]).id by {
        let d = l.messages.len() + 1 - p.messages.len();
        if b < p.messages.len() - 1 {
            assert(p.messages[b] == l.messages[b + d]);
        }
        assert(p.messages[a] == l.messages[a + d]);
    }
    assert forall|a: int| 0 <= a < p.messages.len() implies 1 <= (#[trigger] p.messages[a]).id
        <= p.next_id by {
        let d = l.messages.len() + 1 - p.messages.len();
        if a < p.messages.len() - 1 {
            assert(p.messages[a] == l.messages[a + d]);
        }
    }
}

/// A message that was just published is read back by whoever has not seen
/// its number yet; it is the last of what is read.
pub proof fn law_publish_then_read(
    s: BusState,
    name: Seq<char>,
    sender: Seq<char>,
    text: Seq<char>,
    now_ms: i64,
    since: u64,
)
    requires
        bus_ok(s),
        line_of(s, name).next_id < u64::MAX,
        since <= line_of(s, name).next_id,
    ensures
        ({
            let after = bus_after(s, name, sender, text, now_ms);
            let read = newer(line_of(after, name).messages, since);
            &&& read.len() > 0
            &&& read.last() == Posted {
                id: (line_of(s, name).next_id + 1) as u64,
                epoch_ms: now_ms,
                sender,
                text,
            }
        }),
{
    reveal(Seq::filter);
    lemma_line_index(s.lines, name);
    let after = bus_after(s, name, sender, text, now_ms);
    let i = line_index(s.lines, name);
    assert forall|k: int| 0 <= k < i implies (#[trigger] after.lines[k]).name != name by {
        assert(after.lines[k] == s.lines[k]);
    }
    lemma_line_index_is(after.lines, name, i);
    let ms = line_of(after, name).messages;
    assert(ms.last().id == line_of(s, name).next_id + 1);
}

/// Reading again from the last number read gives nothing new.
pub proof fn law_read_is_exhaustive(l: Line)
    requires
        numbered(l),
    ensures
        newer(l.messages, l.next_id).len() == 0,
{
    let f = newer(l.messages, l.next_id);
    if f.len() > 0 {
        l.messages.lemma_filter_pred(|m: Posted| m.id > l.next_id, 0);
        let good = |m: Posted| m.id > l.next_id;
        lemma_filter_from(l.messages, good, 0);
        let k = choose|k: int| 0 <= k < l.messages.len() && l.messages[k] == f[0];
        assert(l.messages[k].id <= l.next_id);
    }
}

/// Reading from zero gives every message that the channel keeps.
pub proof fn law_read_from_start(l: Line)
    requires
        numbered(l),
    ensures
        newer(l.messages, 0) == l.messages,
{
    lemma_all_newer(l.messages);
}

proof fn lemma_all_newer(ms: Seq<Posted>)
    requires
        forall|i: int| 0 <= i < ms.len() ==> 1 <= (#[trigger] ms[i]).id,
    ensures
        newer(ms, 0) == ms,
    decreases ms.len(),
{
    reveal(Seq::filter);
    if ms.len() > 0 {
        let d = ms.drop_last();
        assert forall|i: int| 0 <= i < d.len() implies 1 <= (#[trigger] d[i]).id by {
            assert(d[i] == ms[i]);
        }
        lemma_all_newer(d);
        assert(1 <= ms[ms.len() - 1].id);
        assert(d.push(ms.last()) =~= ms);
    }
    assert(newer(ms, 0) =~= ms);
}

proof fn lemma_filter_from(s: Seq<Posted>, p: spec_fn(Posted) -> bool, i: int)
    requires
        0 <= i < s.filter(p).len(),
    ensures
        s.contains(s.filter(p)[i]),
    decreases s.len(),
{
    reveal(Seq::filter);
    if s.len() > 0 {
        let d = s.drop_last();
        if i < d.filter(p).len() {
            lemma_filter_from(d, p, i);
            let k = choose|k: int| 0 <= k < d.len() && d[k] == d.filter(p)[i];
            assert(s[k] == s.filter(p)[i]);
        } else {
            assert(s[s.len() - 1] == s.filter(p)[i]);
        }
    }
}

impl ChannelBus {
    /// The invariant of the bus.
    pub open spec fn wf(&self) -> bool {
        bus_ok(self@)
    }

    pub fn new() -> (r: ChannelBus)
        ensures
            r.wf(),
            r@ == (BusState { lines: Seq::empty(), ring_size: 256 }),
    {
        let r = ChannelBus { channels: Vec::new(), ring_size: 256 };
        proof {
            assert(r@.lines =~= Seq::empty());
        }
        r
    }

    /// Sets how many messages a channel keeps, at least one.
    pub fn set_ring_size(&mut self, n: usize)
        requires
            old(self).wf(),
        ensures
            final(self).wf(),
            final(self)@ == (BusState {
                ring_size: if n > 1 {
                    n
                } else {
                    1
                },
                ..old(self)@
            }),
    {
        self.ring_size = if n > 1 {
            n
        } else {
            1
        };
    }

    fn find(&self, name: &str) -> (r: usize)
        ensures
            r == line_index(self@.lines, name@),
            r <= self.channels@.len(),
            self@.lines.len() == self.channels@.len(),
    {
        let mut i: usize = 0;
        while i < self.channels.len()
            invariant_except_break
                i <= self.channels@.len(),
            invariant
                self@.lines.len() == self.channels@.len(),
                forall|j: int| 0 <= j < i ==> (#[trigger] self@.lines[j]).name != name@,
            ensures
                i <= self.channels@.len(),
                i < self.channels@.len() ==> self@.lines[i as int].name == name@,
            decreases self.channels@.len() - i,
        {
            if same(self.channels[i].name.as_str(), name) {
                break;
            }
            i = i + 1;
        }
        proof {
            lemma_line_index_is(self@.lines, name@, i as int);
        }
        i
    }

    /// Publishes a message as of now; returns its number.
    pub fn publish(&mut self, channel: &str, sender: &str, text: &str) -> (r: u64)
        requires
            old(self).wf(),
            line_of(old(self)@, channel@).next_id < u64::MAX,
        ensures
            final(self).wf(),
            r == line_of(old(self)@, channel@).next_id + 1,
            exists|now_ms: i64|
                final(self)@ == #[trigger] bus_after(old(self)@, channel@, sender@, text@, now_ms),
    {
        let t: i64 = now_millis();
        self.publish_at(channel, sender, text, t)
    }

    /// Publishes a message as of a given time; returns its number.
    pub fn publish_at(&mut self, channel: &str, sender: &str, text: &str, now_ms: i64) -> (r: u64)
        requires
            old(self).wf(),
            line_of(old(self)@, channel@).next_id < u64::MAX,
        ensures
            final(self).wf(),
            r == line_of(old(self)@, channel@).next_id + 1,
            final(self)@ == bus_after(old(self)@, channel@, sender@, text@, now_ms),
    {
        let ghost s = self@;
        proof {
            law_publish_keeps_order(s, channel@, sender@, text@, now_ms);
            lemma_line_index(s.lines, channel@);
        }
        let i: usize = self.find(channel);
        let mut c: Channel = if i < self.channels.len() {
            let was: Channel = self.channels.remove(i);
            was
        } else {
            let fresh = Channel { name: owned(channel), messages: Vec::new(), next_id: 0 };
            proof {
                assert(fresh@.messages =~= Seq::empty());
            }
            fresh
        };
        let ghost base = self@.lines;
        proof {
            assert(c@ == line_of(s, channel@));
        }
        let ghost l = c@;
        let id: u64 = c.next_id + 1;
        c.next_id = id;
        let m = ChannelMessage { id, epoch_ms: now_ms, sender: owned(sender), text: owned(text) };
        let mut list: Vec<ChannelMessage> = c.messages;
        list.push(m);
        let ghost all = list@;
        c.messages = drop_oldest(list, self.ring_size);
        proof {
            assert(posted_views(all) =~= l.messages.push(m@));
            assert(c@.messages =~= keep_last(posted_views(all), self.ring_size as nat));
            assert(c@ == posted(l, sender@, text@, now_ms, self.ring_size as nat));
        }
        self.channels.insert(i, c);
        proof {
            assert(self@.lines =~= bus_after(s, channel@, sender@, text@, now_ms).lines);
        }
        id
    }

    /// The messages of a channel with a number above `since_id`, in order.
    pub fn read(&self, channel: &str, since_id: u64) -> (r: Vec<ChannelMessage>)
        ensures
            posted_views(r@) == newer(line_of(self@, channel@).messages, since_id),
    {
        let mut out: Vec<ChannelMessage> = Vec::new();
        let i: usize = self.find(channel);
        let ghost good = |m: Posted| m.id > since_id;
        proof {
            reveal(Seq::filter);
            lemma_line_index(self@.lines, channel@);
            assert(posted_views(out@) =~= Seq::<Posted>::empty().filter(good));
        }
        if i < self.channels.len() {
            let c: &Channel = &self.channels[i];
            let ghost ms = posted_views(c.messages@);
            proof {
                reveal(Seq::filter);
                assert(line_of(self@, channel@) == c@);
                assert(posted_views(out@) =~= ms.take(0).filter(good));
            }
            for k in 0..c.messages.len()
                invariant
                    ms == posted_views(c.messages@),
                    good == (|m: Posted| m.id > since_id),
                    posted_views(out@) == ms.take(k as int).filter(good),
            {
                proof {
                    reveal(Seq::filter);
                    assert(ms.take(k + 1).drop_last() =~= ms.take(k as int));
                    assert(ms.take(k + 1).last() == c.messages@[k as int]@);
                }
                if c.messages[k].id > since_id {
                    let m: ChannelMessage = c.messages[k].clone();
                    let ghost before = out@;
                    out.push(m);
                    proof {
                        assert(posted_views(out@) =~= posted_views(before).push(m@));
                    }
                }
            }
            proof {
                assert(ms.take(ms.len() as int) =~= ms);
            }
        }
        out
    }

    /// Every channel with its size and latest number, sorted by name.
    pub fn list(&self) -> (r: Vec<ChannelInfo>)
        requires
            self.wf(),
        ensures
            info_views(r@) == summaries(self@),
    {
        let ghost s = self@;
        let mut names: Vec<String> = Vec::new();
        proof {
            assert(views(names@) =~= line_names(s.lines.take(0)));
        }
        for i in 0..self.channels.len()
            invariant
                s == self@,
                views(names@) == line_names(s.lines.take(i as int)),
        {
            let n: String = self.channels[i].name.clone();
            proof {
                lemma_views_push(names@, n);
                assert(line_names(s.lines.take(i + 1)) =~= line_names(s.lines.take(i as int)).push(
                    n@,
                ));
            }
            names.push(n);
        }
        proof {
            assert(s.lines.take(s.lines.len() as int) =~= s.lines);
        }
        let sorted: Vec<String> = sort_strings(&names);
        let ghost sv = views(sorted@);
        let mut out: Vec<ChannelInfo> = Vec::new();
        proof {
            assert(info_views(out@) =~= sv.take(0).map_values(
                |n: Seq<char>| summary(line_of(s, n)),
            ));
        }
        for i in 0..sorted.len()
            invariant
                s == self@,
                sv == views(sorted@),
                info_views(out@) == sv.take(i as int).map_values(
                    |n: Seq<char>| summary(line_of(s, n)),
                ),
        {
            let k: usize = self.find(sorted[i].as_str());
            proof {
                lemma_line_index(s.lines, sv[i as int]);
                assert(sv[i as int] == sorted@[i as int]@);
            }
            let (count, latest): (usize, u64) = if k < self.channels.len() {
                let c: &Channel = &self.channels[k];
                let n: usize = c.messages.len();
                (
                    n,
                    if n > 0 {
                        c.messages[n - 1].id
                    } else {
                        0
                    },
                )
            } else {
                (0, 0)
            };
            let info = ChannelInfo {
                name: sorted[i].clone(),
                message_count: count,
                latest_id: latest,
            };
            let ghost before = out@;
            out.push(info);
            proof {
                let f = |n: Seq<char>| summary(line_of(s, n));
                assert((info.name@, count, latest) == summary(line_of(s, sv[i as int])));
                assert(info_views(out@) =~= info_views(before).push((info.name@, count, latest)));
                assert(sv.take(i + 1) =~= sv.take(i as int).push(sv[i as int]));
                assert(sv.take(i + 1).map_values(f) =~= sv.take(i as int).map_values(f).push(
                    f(sv[i as int]),
                ));
            }
        }
        proof {
            assert(sv.take(sv.len() as int) =~= sv);
        }
        out
    }
}

impl Default for ChannelBus {
    fn default() -> (r: ChannelBus)
        ensures
            r.wf(),
            r@ == (BusState { lines: Seq::empty(), ring_size: 256 }),
    {
        ChannelBus::new()
    }
}

/// Publishing on one channel leaves the others as they were, and adds a
/// message to its own, numbered one above the last.
pub proof fn law_other_channels_stay(
    s: BusState,
    name: Seq<char>,
    sender: Seq<char>,
    text: Seq<char>,
    now_ms: i64,
    other: Seq<char>,
)
    requires
        bus_ok(s),
        line_of(s, name).next_id < u64::MAX,
    ensures
        ({
            let after = bus_after(s, name, sender, text, now_ms);
            &&& other != name ==> line_of(after, other) == line_of(s, other)
            &&& line_of(after, name).next_id == line_of(s, name).next_id + 1
            &&& after.ring_size == s.ring_size
            &&& after.lines.len() == s.lines.len() || after.lines.len() == s.lines.len() + 1
        }),
{
    let after = bus_after(s, name, sender, text, now_ms);
    let l = posted(line_of(s, name), sender, text, now_ms, s.ring_size as nat);
    lemma_line_index(s.lines, name);
    lemma_line_index(s.lines, other);
    let i = line_index(s.lines, name);
    let k = line_index(s.lines, other);
    assert(l.name == name);
    assert forall|j: int| 0 <= j < i implies (#[trigger] after.lines[j]).name != name by {
        assert(after.lines[j] == s.lines[j]);
    }
    lemma_line_index_is(after.lines, name, i);
    if other != name {
        if k < s.lines.len() {
            assert forall|j: int| 0 <= j < k implies (#[trigger] after.lines[j]).name != other by {
                assert(s.lines[j].name != other);
            }
            lemma_line_index_is(after.lines, other, k);
        } else {
            assert forall|j: int| 0 <= j < after.lines.len() implies (
            #[trigger] after.lines[j]).name != other by {
                if j < s.lines.len() {
                    assert(s.lines[j].name != other);
                }
            }
            lemma_line_index_is(after.lines, other, after.lines.len() as int);
        }
    }
}

/// A channel keeps the newest messages: as long as there is room all of
/// them, and then it lets the oldest go.
pub proof fn law_ring_keeps_the_newest(
    l: Line,
    sender: Seq<char>,
    text: Seq<char>,
    now_ms: i64,
    ring: nat,
)
    requires
        ring >= 1,
    ensures
        ({
            let r = posted(l, sender, text, now_ms, ring);
            &&& r.messages.last().sender == sender
            &&& r.messages.last().text == text
            &&& r.messages.last().epoch_ms == now_ms
            &&& r.messages.last().id == r.next_id
            &&& l.messages.len() < ring ==> r.messages.drop_last() == l.messages
            &&& l.messages.len() == ring ==> r.messages.drop_last() == l.messages.skip(1)
            &&& r.messages.len() <= ring
        }),
{
    let r = posted(l, sender, text, now_ms, ring);
    if l.messages.len() < ring {
        assert(r.messages.drop_last() =~= l.messages);
    }
    if l.messages.len() == ring {
        assert(r.messages.drop_last() =~= l.messages.skip(1));
    }
}

/// What is read of a channel are just the messages with a higher number than
/// the last one seen.
pub proof fn law_read_is_what_is_newer(ms: Seq<Posted>, since: u64, m: Posted)
    ensures
        newer(ms, since).contains(m) <==> ms.contains(m) && m.id > since,
        newer(ms, since).len() <= ms.len(),
{
    let good = |m: Posted| m.id > since;
    let r = newer(ms, since);
    ms.lemma_filter_len(good);
    if r.contains(m) {
        let i = choose|i: int| 0 <= i < r.len() && r[i] == m;
        ms.lemma_filter_pred(good, i);
        ms.lemma_filter_contains_rev(good, m);
    }
    if ms.contains(m) && m.id > since {
        let i = choose|i: int| 0 <= i < ms.len() && ms[i] == m;
        ms.lemma_filter_contains(good, i);
    }
}

/// The listing has one summary per channel, in the order of their names, and
/// each tells how many messages there are and the number of the last.
pub proof fn law_listing_is_sorted(s: BusState)
    ensures
        summaries(s).len() == s.lines.len(),
        forall|i: int, j: int|
            0 <= i < j < summaries(s).len() && bus_ok(s) ==> !lex_less(
                (#[trigger] summaries(s)[j]).0,
                (#[trigger] summaries(s)[i]).0,
            ),
        forall|l: Line|
            l.messages.len() <= usize::MAX ==> (#[trigger] summary(l)).1 == l.messages.len(),
        forall|l: Line|
            l.messages.len() > 0 ==> (#[trigger] summary(l)).2 == l.messages.last().id,
        forall|l: Line| l.messages.len() == 0 ==> (#[trigger] summary(l)).2 == 0,
{
    let names = line_names(s.lines);
    let n = lex_sorted(names);
    law_lex_sorted(names);
    assert forall|i: int, j: int| 0 <= i < j < summaries(s).len() && bus_ok(s) implies !lex_less(
        (#[trigger] summaries(s)[j]).0,
        (#[trigger] summaries(s)[i]).0,
    ) by {
        lemma_line_index(s.lines, n[i]);
        lemma_line_index(s.lines, n[j]);
        assert(line_of(s, n[i]).name == n[i]);
        assert(line_of(s, n[j]).name == n[j]);
        assert(!lex_less(n[j], n[i]));
    }
}

} // verus!
