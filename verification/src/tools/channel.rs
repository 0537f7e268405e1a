//! The tools that give the model access to the channel bus.
use crate::channels::{
    bus_after, info_views, line_of, newer, posted_views, summaries, BusState, ChannelBus,
    ChannelInfo, ChannelMessage, Posted,
};
use crate::text::{
    begins, dec, ends, fmt_u64, lemma_shows, lemma_shows_itself, opt_view, owned, shows, views,
};
use crate::tools::registry::{
    failed, missing, ok_text, outcome, text_output, Failed, Output, ToolError, ToolOutput,
};
use vstd::prelude::*;

verus! {

/// Calls `chrono::DateTime::format` on a point in time in the local time
/// zone, for its hours, minutes and seconds; `None` where it is no single
/// date there. The zone is the machine's, so nothing is said of the text.
#[verifier::external_body]
fn local_hms(epoch_ms: i64) -> Option<String> {
    match chrono::TimeZone::timestamp_millis_opt(&chrono::Local, epoch_ms).single() {
        Some(t) => Some(t.format("%H:%M:%S").to_string()),
        None => None,
    }
}

/// The text shown for a time of day.
pub open spec fn shown_time(hms: Option<Seq<char>>) -> Seq<char> {
    match hms {
        Some(s) => s,
        None => "??:??:??"@,
    }
}

/// Shows a time of day, or question marks where there is none.
pub fn show_time(hms: Option<String>) -> (r: String)
    ensures
        r@ == shown_time(opt_view(hms)),
{
    match hms {
        Some(s) => s,
        None => owned("??:??:??"),
    }
}

/// Whether a text is there and not empty.
pub open spec fn given(o: Option<String>) -> bool {
    o matches Some(s) && s@.len() > 0
}

/// The text of an option, or a default.
pub open spec fn text_or(o: Option<String>, default: Seq<char>) -> Seq<char> {
    match o {
        Some(s) => s@,
        None => default,
    }
}

/// The error for a missing channel.
pub open spec fn no_channel() -> Failed {
    failed("'channel' is required"@, "missing_parameter"@)
}

fn is_given(o: &Option<String>) -> (r: bool)
    ensures
        r == given(*o),
{
    match o {
        Some(s) => s.as_str().unicode_len() > 0,
        None => false,
    }
}

fn or_default(o: &Option<String>, default: &str) -> (r: String)
    ensures
        r@ == text_or(*o, default@),
{
    match o {
        Some(s) => s.clone(),
        None => owned(default),
    }
}

/// What the model is told of the tool.
pub const PUBLISH_DESCRIPTION: &'static str = "Publish a message to a named in-process channel. Channels are auto-created on first use and persist for the duration of this CLI run. Useful for coordinating with sub-agents or leaving notes for later turns to read with ChannelRead.";

/// The JSON schema of the tool's input.
pub const PUBLISH_SCHEMA: &'static str = "{\"properties\":{\"channel\":{\"description\":\"Channel name.\",\"type\":\"string\"},\"sender\":{\"description\":\"Optional sender label (defaults to 'main').\",\"type\":\"string\"},\"text\":{\"description\":\"Message body.\",\"type\":\"string\"}},\"required\":[\"channel\",\"text\"],\"type\":\"object\"}";

#[derive(Debug, Clone, Copy)]
pub struct ChannelPublishTool {}

impl Default for ChannelPublishTool {
    fn default() -> ChannelPublishTool {
        ChannelPublishTool {  }
    }
}

impl ChannelPublishTool {
    pub fn new() -> ChannelPublishTool {
        ChannelPublishTool {  }
    }

    pub fn name(&self) -> (r: &'static str)
        ensures
            r@ == "ChannelPublish"@,
    {
        "ChannelPublish"
    }

    pub fn description(&self) -> (r: &'static str)
        ensures
            r@ == PUBLISH_DESCRIPTION@,
    {
        PUBLISH_DESCRIPTION
    }

    pub fn input_schema(&self) -> (r: &'static str)
        ensures
            r@ == PUBLISH_SCHEMA@,
    {
        PUBLISH_SCHEMA
    }

    /// Publishes a message for the model. A channel is required; without a
    /// sender it is `main`.
    pub fn execute(
        &self,
        bus: &mut ChannelBus,
        channel: &Option<String>,
        text: &Option<String>,
        sender: &Option<String>,
    ) -> (r: Result<ToolOutput, ToolError>)
        requires
            old(bus).wf(),
            line_of(old(bus)@, text_or(*channel, ""@)).next_id < u64::MAX,
        ensures
            final(bus).wf(),
            given(*channel) ==> {
                let id = line_of(old(bus)@, channel->0@).next_id + 1;
                &&& outcome(r) == Ok::<Output, Failed>(
                    text_output(
                        "Published message #"@ + dec(id as nat) + " to '"@ + channel->0@ + "'"@,
                    ),
                )
                &&& exists|now_ms: i64|
                    final(bus)@ == #[trigger] bus_after(
                        old(bus)@,
                        channel->0@,
                        text_or(*sender, "main"@),
                        text_or(*text, ""@),
                        now_ms,
                    )
            },
            !given(*channel) ==> outcome(r) == Err::<Output, Failed>(no_channel()) && final(bus)@ == old(
                bus,
            )@,
    {
        if !is_given(channel) {
            return Err(missing("'channel' is required"));
        }
        let name: String = or_default(channel, "");
        let body: String = or_default(text, "");
        let from: String = or_default(sender, "main");
        let id: u64 = bus.publish(name.as_str(), from.as_str(), body.as_str());
        let mut m: String = owned("Published message #");
        m.append(fmt_u64(id).as_str());
        m.append(" to '");
        m.append(name.as_str());
        m.append("'");
        Ok(ok_text(m))
    }
}

/// One message as it is shown, with the time it was published.
pub open spec fn message_line(m: Posted, time: Seq<char>) -> Seq<char> {
    "\n#"@ + dec(m.id as nat) + " ["@ + time + " "@ + m.sender + "] "@ + m.text
}

/// Messages as they are shown, each with its time.
pub open spec fn message_lines(ms: Seq<Posted>, times: Seq<Seq<char>>) -> Seq<char>
    decreases ms.len(),
{
    if ms.len() == 0 {
        seq![]
    } else {
        message_lines(ms.drop_last(), times) + message_line(ms.last(), times[ms.len() - 1])
    }
}

/// What a read of a channel shows.
pub open spec fn read_text(
    channel: Seq<char>,
    since: u64,
    ms: Seq<Posted>,
    times: Seq<Seq<char>>,
) -> Seq<char> {
    "Channel '"@ + channel + "' ("@ + dec(ms.len()) + " msg"@ + (if ms.len() == 1 {
        ""@
    } else {
        "s"@
    }) + " since #"@ + dec(since as nat) + ")\n"@ + (if ms.len() == 0 {
        "(none)"@
    } else {
        message_lines(ms, times)
    })
}

/// Shows the messages of a channel with the times they were published.
pub fn render_read(
    channel: &str,
    since: u64,
    messages: &Vec<ChannelMessage>,
    times: &Vec<String>,
) -> (r: String)
    requires
        times@.len() == messages@.len(),
    ensures
        r@ == read_text(channel@, since, posted_views(messages@), views(times@)),
{
    let ghost mv = posted_views(messages@);
    let ghost tv = views(times@);
    let mut out: String = owned("Channel '");
    out.append(channel);
    out.append("' (");
    out.append(fmt_u64(messages.len() as u64).as_str());
    out.append(" msg");
    out.append(
        if messages.len() == 1 {
            ""
        } else {
            "s"
        },
    );
    out.append(" since #");
    out.append(fmt_u64(since).as_str());
    out.append(")\n");
    if messages.len() == 0 {
        out.append("(none)");
    } else {
        let mut body: String = String::new();
        proof {
            assert(body@ =~= message_lines(mv.take(0), tv));
        }
        for i in 0..messages.len()
            invariant
                times@.len() == messages@.len(),
                mv == posted_views(messages@),
                tv == views(times@),
                body@ == message_lines(mv.take(i as int), tv),
        {
            let ghost before = body@;
            body.append("\n#");
            body.append(fmt_u64(messages[i].id).as_str());
            body.append(" [");
            body.append(times[i].as_str());
            body.append(" ");
            body.append(messages[i].sender.as_str());
            body.append("] ");
            body.append(messages[i].text.as_str());
            proof {
                assert(mv.take(i + 1).drop_last() =~= mv.take(i as int));
                assert(mv.take(i + 1).last() == messages@[i as int]@);
                assert(body@ =~= before + message_line(mv[i as int], tv[i as int]));
            }
        }
        proof {
            assert(mv.take(mv.len() as int) =~= mv);
        }
        out.append(body.as_str());
    }
    out
}

/// The number to read from; zero where none is given.
pub open spec fn read_since(since_id: Option<u64>) -> u64 {
    match since_id {
        Some(n) => n,
        None => 0,
    }
}

/// Whether an outcome shows the newer messages of a channel, each with one
/// of the times.
pub open spec fn shows_read(
    o: Result<Output, Failed>,
    bus: BusState,
    channel: Seq<char>,
    since: u64,
    times: Seq<Seq<char>>,
) -> bool {
    let ms = newer(line_of(bus, channel).messages, since);
    times.len() == ms.len() && o == Ok::<Output, Failed>(
        text_output(read_text(channel, since, ms, times)),
    )
}

/// What the model is told of the tool.
pub const READ_DESCRIPTION: &'static str = "Read messages from a named channel. Pass `since_id` to return only messages newer than a given id (use the last id you saw).";

/// The JSON schema of the tool's input.
pub const READ_SCHEMA: &'static str = "{\"properties\":{\"channel\":{\"description\":\"Channel name.\",\"type\":\"string\"},\"since_id\":{\"default\":0,\"description\":\"Return messages with id > since_id.\",\"type\":\"integer\"}},\"required\":[\"channel\"],\"type\":\"object\"}";

#[derive(Debug, Clone, Copy)]
pub struct ChannelReadTool {}

impl Default for ChannelReadTool {
    fn default() -> ChannelReadTool {
        ChannelReadTool {  }
    }
}

impl ChannelReadTool {
    pub fn new() -> ChannelReadTool {
        ChannelReadTool {  }
    }

    pub fn name(&self) -> (r: &'static str)
        ensures
            r@ == "ChannelRead"@,
    {
        "ChannelRead"
    }

    pub fn description(&self) -> (r: &'static str)
        ensures
            r@ == READ_DESCRIPTION@,
    {
        READ_DESCRIPTION
    }

    pub fn input_schema(&self) -> (r: &'static str)
        ensures
            r@ == READ_SCHEMA@,
    {
        READ_SCHEMA
    }

    /// Reads a channel for the model. A channel is required; without a number
    /// all messages are read. Times are shown in the local time zone.
    pub fn execute(
        &self,
        bus: &ChannelBus,
        channel: &Option<String>,
        since_id: Option<u64>,
    ) -> (r: Result<ToolOutput, ToolError>)
        ensures
            given(*channel) ==> exists|times: Seq<Seq<char>>| #[trigger]
                shows_read(outcome(r), bus@, channel->0@, read_since(since_id), times),
            !given(*channel) ==> outcome(r) == Err::<Output, Failed>(no_channel()),
    {
        if !is_given(channel) {
            return Err(missing("'channel' is required"));
        }
        let name: String = or_default(channel, "");
        let since: u64 = match since_id {
            Some(n) => n,
            None => 0,
        };
        let ms: Vec<ChannelMessage> = bus.read(name.as_str(), since);
        let mut times: Vec<String> = Vec::new();
        for i in 0..ms.len()
            invariant
                times@.len() == i,
        {
            times.push(show_time(local_hms(ms[i].epoch_ms)));
        }
        let text: String = render_read(name.as_str(), since, &ms, &times);
        let out: ToolOutput = ok_text(text);
        proof {
            assert(views(times@).len() == posted_views(ms@).len());
        }
        let done: Result<ToolOutput, ToolError> = Ok(out);
        proof {
            assert(since == read_since(since_id));
            assert(shows_read(outcome(done), bus@, channel->0@, since, views(times@)));
        }
        done
    }
}

/// One channel as it is listed.
pub open spec fn channel_line(i: (Seq<char>, usize, u64)) -> Seq<char> {
    "  "@ + i.0 + "  msgs="@ + dec(i.1 as nat) + "  latest=#"@ + dec(i.2 as nat) + "\n"@
}

/// One line per channel.
pub open spec fn channel_lines(s: Seq<(Seq<char>, usize, u64)>) -> Seq<char>
    decreases s.len(),
{
    if s.len() == 0 {
        seq![]
    } else {
        channel_lines(s.drop_last()) + channel_line(s.last())
    }
}

/// The list of channels.
pub open spec fn channel_list_text(s: Seq<(Seq<char>, usize, u64)>) -> Seq<char> {
    "Channels: "@ + dec(s.len()) + "\n"@ + (if s.len() == 0 {
        "(none)"@
    } else {
        channel_lines(s)
    })
}

/// What the model is told of the tool.
pub const LIST_DESCRIPTION: &'static str = "List every channel that currently has at least one message, with the message count and the latest message id.";

/// The JSON schema of the tool's input.
pub const LIST_SCHEMA: &'static str = "{\"properties\":{},\"type\":\"object\"}";

#[derive(Debug, Clone, Copy)]
pub struct ChannelListTool {}

impl Default for ChannelListTool {
    fn default() -> ChannelListTool {
        ChannelListTool {  }
    }
}

impl ChannelListTool {
    pub fn new() -> ChannelListTool {
        ChannelListTool {  }
    }

    pub fn name(&self) -> (r: &'static str)
        ensures
            r@ == "ChannelList"@,
    {
        "ChannelList"
    }

    pub fn description(&self) -> (r: &'static str)
        ensures
            r@ == LIST_DESCRIPTION@,
    {
        LIST_DESCRIPTION
    }

    pub fn input_schema(&self) -> (r: &'static str)
        ensures
            r@ == LIST_SCHEMA@,
    {
        LIST_SCHEMA
    }

    /// Lists all channels for the model.
    pub fn execute(&self, bus: &ChannelBus) -> (r: ToolOutput)
        requires
            bus.wf(),
        ensures
            r@ == text_output(channel_list_text(summaries(bus@))),
    {
        let infos: Vec<ChannelInfo> = bus.list();
        let ghost iv = info_views(infos@);
        let mut out: String = owned("Channels: ");
        out.append(fmt_u64(infos.len() as u64).as_str());
        out.append("\n");
        proof {
            assert(iv.len() == infos@.len());
        }
        if infos.len() == 0 {
            out.append("(none)");
        } else {
            let mut body: String = String::new();
            proof {
                assert(body@ =~= channel_lines(iv.take(0)));
            }
            for i in 0..infos.len()
                invariant
                    iv == info_views(infos@),
                    body@ == channel_lines(iv.take(i as int)),
            {
                let ghost before = body@;
                body.append("  ");
                body.append(infos[i].name.as_str());
                body.append("  msgs=");
                body.append(fmt_u64(infos[i].message_count as u64).as_str());
                body.append("  latest=#");
                body.append(fmt_u64(infos[i].latest_id).as_str());
                body.append("\n");
                proof {
                    assert(iv.take(i + 1).drop_last() =~= iv.take(i as int));
                    assert(iv.take(i + 1).last() == iv[i as int]);
                    assert(body@ =~= before + channel_line(iv[i as int]));
                }
            }
            proof {
                assert(iv.take(iv.len() as int) =~= iv);
            }
            out.append(body.as_str());
        }
        ok_text(out)
    }
}

proof fn lemma_line_shown(ms: Seq<Posted>, times: Seq<Seq<char>>, i: int)
    requires
        0 <= i < ms.len(),
    ensures
        shows(message_lines(ms, times), message_line(ms[i], times[i])),
    decreases ms.len(),
{
    let l = message_line(ms[i], times[i]);
    let before = message_lines(ms.drop_last(), times);
    let last = message_line(ms.last(), times[ms.len() - 1]);
    if i == ms.len() - 1 {
        lemma_shows_itself(last);
        lemma_shows(before, last, Seq::empty(), l);
        assert(before + last + Seq::empty() =~= message_lines(ms, times));
    } else {
        lemma_line_shown(ms.drop_last(), times, i);
        lemma_shows(Seq::empty(), before, last, l);
        assert(Seq::empty() + before + last =~= message_lines(ms, times));
    }
}

/// Reading a channel shows the number, the sender and the text of every
/// message read, and tells that there are none where there are none.
pub proof fn law_read_shows_every_message(
    channel: Seq<char>,
    since: u64,
    ms: Seq<Posted>,
    times: Seq<Seq<char>>,
)
    ensures
        forall|i: int|
            0 <= i < ms.len() ==> shows(
                read_text(channel, since, ms, times),
                "\n#"@ + dec((#[trigger] ms[i]).id as nat) + " ["@ + times[i] + " "@ + ms[i].sender
                    + "] "@ + ms[i].text,
            ),
        ms.len() == 0 ==> ends(read_text(channel, since, ms, times), "(none)"@),
        begins(read_text(channel, since, ms, times), "Channel '"@ + channel + "' ("@ + dec(ms.len())),
{
    let r = read_text(channel, since, ms, times);
    let first = "Channel '"@ + channel + "' ("@ + dec(ms.len());
    assert(r.take(first.len() as int) =~= first);
    let head = first + " msg"@ + (if ms.len() == 1 {
        ""@
    } else {
        "s"@
    }) + " since #"@ + dec(since as nat) + ")\n"@;
    if ms.len() == 0 {
        assert(r.skip(r.len() - "(none)"@.len()) =~= "(none)"@);
    }
    assert forall|i: int| 0 <= i < ms.len() implies shows(
        r,
        "\n#"@ + dec((#[trigger] ms[i]).id as nat) + " ["@ + times[i] + " "@ + ms[i].sender + "] "@
            + ms[i].text,
    ) by {
        lemma_line_shown(ms, times, i);
        let l = message_line(ms[i], times[i]);
        lemma_shows(head, message_lines(ms, times), Seq::empty(), l);
        assert(head + message_lines(ms, times) + Seq::empty() =~= r);
    }
}

proof fn lemma_channel_shown(s: Seq<(Seq<char>, usize, u64)>, i: int)
    requires
        0 <= i < s.len(),
    ensures
        shows(channel_lines(s), channel_line(s[i])),
    decreases s.len(),
{
    let l = channel_line(s[i]);
    let before = channel_lines(s.drop_last());
    let last = channel_line(s.last());
    if i == s.len() - 1 {
        lemma_shows_itself(last);
        lemma_shows(before, last, Seq::empty(), l);
        assert(before + last + Seq::empty() =~= channel_lines(s));
    } else {
        lemma_channel_shown(s.drop_last(), i);
        lemma_shows(Seq::empty(), before, last, l);
        assert(Seq::empty() + before + last =~= channel_lines(s));
    }
}

/// The list of channels shows the name, the number of messages and the
/// latest number of every channel.
pub proof fn law_list_shows_every_channel(s: Seq<(Seq<char>, usize, u64)>, i: int)
    requires
        0 <= i < s.len(),
    ensures
        shows(
            channel_list_text(s),
            "  "@ + s[i].0 + "  msgs="@ + dec(s[i].1 as nat) + "  latest=#"@ + dec(s[i].2 as nat)
                + "\n"@,
        ),
        begins(channel_list_text(s), "Channels: "@ + dec(s.len()) + "\n"@),
{
    let head = "Channels: "@ + dec(s.len()) + "\n"@;
    lemma_channel_shown(s, i);
    lemma_shows(head, channel_lines(s), Seq::empty(), channel_line(s[i]));
    assert(head + channel_lines(s) + Seq::empty() =~= channel_list_text(s));
    assert(channel_list_text(s).take(head.len() as int) =~= head);
}

} // verus!
