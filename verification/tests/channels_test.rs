use agentrust::channels::ChannelBus;
use agentrust::tools::channel::{render_read, show_time};
use agentrust::tools::{ChannelListTool, ChannelPublishTool, ChannelReadTool};

fn some(s: &str) -> Option<String> {
    Some(s.to_string())
}

#[test]
fn publish_then_read_returns_only_newer_messages() {
    let mut bus = ChannelBus::new();
    let id1 = bus.publish("c", "main", "hello");
    let id2 = bus.publish("c", "main", "world");
    assert_eq!(id1, 1);
    assert_eq!(id2, 2);
    let all = bus.read("c", 0);
    assert_eq!(all.len(), 2);
    let only_new = bus.read("c", id1);
    assert_eq!(only_new.len(), 1);
    assert_eq!(only_new[0].text, "world");
}

#[test]
fn ring_buffer_drops_oldest() {
    let mut bus = ChannelBus::new();
    bus.set_ring_size(2);
    bus.publish("c", "main", "a");
    bus.publish("c", "main", "b");
    bus.publish("c", "main", "c");
    let msgs = bus.read("c", 0);
    assert_eq!(msgs.len(), 2);
    assert_eq!(msgs[0].text, "b");
    assert_eq!(msgs[1].text, "c");
}

#[test]
fn list_returns_known_channels() {
    let mut bus = ChannelBus::new();
    bus.publish("alpha", "main", "x");
    bus.publish("beta", "main", "y");
    let infos = bus.list();
    let names: Vec<_> = infos.iter().map(|i| i.name.clone()).collect();
    assert_eq!(names, vec!["alpha".to_string(), "beta".to_string()]);
}

#[test]
fn channels_are_listed_by_name() {
    let mut bus = ChannelBus::new();
    bus.publish("zeta", "main", "x");
    bus.publish("alpha", "main", "y");
    bus.publish("zeta", "main", "z");
    let infos = bus.list();
    assert_eq!(infos[0].name, "alpha");
    assert_eq!(infos[1].name, "zeta");
    assert_eq!(infos[1].message_count, 2);
    assert_eq!(infos[1].latest_id, 2);
}

#[test]
fn ids_go_on_after_messages_are_dropped() {
    let mut bus = ChannelBus::new();
    bus.set_ring_size(1);
    bus.publish("c", "main", "a");
    bus.publish("c", "main", "b");
    assert_eq!(bus.publish("c", "main", "c"), 3);
    assert_eq!(bus.read("c", 0).len(), 1);
}

#[test]
fn unknown_channel_reads_as_empty() {
    let bus = ChannelBus::new();
    assert!(bus.read("nowhere", 0).is_empty());
}

#[test]
fn messages_carry_their_time() {
    let mut bus = ChannelBus::new();
    bus.publish_at("c", "me", "x", 1234);
    let m = &bus.read("c", 0)[0];
    assert_eq!(m.epoch_ms, 1234);
    assert_eq!(m.sender, "me");
    bus.publish("c", "me", "y");
    assert!(bus.read("c", 1)[0].epoch_ms > 1_600_000_000_000);
}

#[test]
fn test_channel_publish_and_read() {
    let mut bus = ChannelBus::new();
    let chan = some("test-chan");
    let publish = ChannelPublishTool::new().execute(&mut bus, &chan, &some("hello"), &None).expect("publish");
    assert_eq!(publish.content, "Published message #1 to 'test-chan'");
    let read = ChannelReadTool::new().execute(&bus, &chan, Some(0)).expect("read");
    assert!(read.content.contains("hello"));
    assert!(read.content.starts_with("Channel 'test-chan' (1 msg since #0)\n"));
    let list = ChannelListTool::new().execute(&bus);
    assert_eq!(list.content, "Channels: 1\n  test-chan  msgs=1  latest=#1\n");
}

#[test]
fn local_times_have_hours_minutes_and_seconds() {
    let mut bus = ChannelBus::new();
    bus.publish_at("c", "me", "x", 1_700_000_000_000);
    let out = ChannelReadTool::new().execute(&bus, &some("c"), None).expect("read").content;
    let open = out.find('[').expect("time");
    let time = &out[open + 1..open + 9];
    assert_eq!(time.as_bytes()[2], 58);
    assert_eq!(time.as_bytes()[5], 58);
    // zones are off by whole minutes: 22:13:20 at Greenwich
    assert!(time.ends_with(":20"), "got {}", time);
}

#[test]
fn a_time_that_is_no_date_shows_question_marks() {
    let mut bus = ChannelBus::new();
    bus.publish_at("c", "me", "x", i64::MAX);
    let out = ChannelReadTool::new().execute(&bus, &some("c"), None).expect("read").content;
    assert!(out.contains("[??:??:?? me] x"));
    assert_eq!(show_time(some("12:34:56")), "12:34:56");
    assert_eq!(show_time(None), "??:??:??");
}

#[test]
fn read_shows_each_message() {
    let mut bus = ChannelBus::new();
    bus.publish("c", "a", "one");
    bus.publish("c", "b", "two");
    let ms = bus.read("c", 0);
    let times = vec!["10:00:00".to_string(), "10:00:01".to_string()];
    assert_eq!(
        render_read("c", 0, &ms, &times),
        "Channel 'c' (2 msgs since #0)\n\n#1 [10:00:00 a] one\n#2 [10:00:01 b] two"
    );
    assert_eq!(
        render_read("c", 2, &Vec::new(), &Vec::new()),
        "Channel 'c' (0 msgs since #2)\n(none)"
    );
}

#[test]
fn channel_tools_need_a_channel() {
    let mut bus = ChannelBus::new();
    for c in [None, some("")] {
        let e = ChannelPublishTool::new().execute(&mut bus, &c, &some("x"), &None).unwrap_err();
        assert_eq!(e.message, "'channel' is required");
        assert_eq!(e.code, some("missing_parameter"));
        assert!(ChannelReadTool::new().execute(&bus, &c, None).is_err());
    }
    assert_eq!(ChannelListTool::new().execute(&bus).content, "Channels: 0\n(none)");
}

#[test]
fn channel_tools_describe_themselves() {
    assert_eq!(ChannelPublishTool::new().name(), "ChannelPublish");
    assert!(ChannelReadTool::new().description().contains("since_id"));
    let v: serde_json::Value =
        serde_json::from_str(ChannelPublishTool::new().input_schema()).unwrap();
    assert_eq!(v["required"][1], "text");
    assert_eq!(v["properties"]["sender"]["type"], "string");
    assert_eq!(ChannelListTool::new().input_schema(), "{\"properties\":{},\"type\":\"object\"}");
}
