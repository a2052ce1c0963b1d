use pibipu::bot::{
    announce, count, delivery_content, event_call, event_request, finish_youtube_round, hms, observe_videos,
    plan_youtube_round, record_event, record_threads_posts, Cursor, EventCall, Listing,
};
use pibipu::config::{Config, Prefix, Target};
use pibipu::discord::{EventStatus, Failure};
use pibipu::state::{Delivery, EventAction, EventCreation, EventUpdate, Live, State};
use pibipu::threads::Post;
use pibipu::tracker::{observe, seen_key, LiveDetails, Notice, Video};

#[test]
fn duration_and_count_formatting() {
    assert_eq!(hms(9_242), "2:34:02");
    assert_eq!(hms(-5), "0:00:00");
    assert_eq!(count(Some(1_499)), "1499");
    assert_eq!(count(None), "?");
}

fn config() -> Config {
    Config {
        guild_id: 1,
        threads_interval_secs: 300,
        youtube_interval_secs: 60,
        targets: vec![
            Target::new(10, vec!["u".into()], vec!["UC1".into()], Some(Prefix::All("hey".into()))),
            Target::new(20, vec![], vec!["UC1".into()], None),
        ],
    }
}

fn post(code: &str) -> Post {
    Post { code: code.into(), taken_at: 1, url: format!("https://fixthreads.seria.moe/@u/post/{code}") }
}

#[test]
fn first_threads_fetch_is_a_baseline_and_later_posts_are_queued() {
    let c = config();
    let mut s = State::default();
    record_threads_posts(&mut s, &c, "u", &vec![post("a"), post("b")]);
    assert!(s.pending().is_empty());
    assert!(s.is_seen("threads:u", "a"));
    record_threads_posts(&mut s, &c, "u", &vec![post("b"), post("c"), post("c")]);
    assert_eq!(s.pending().len(), 1);
    assert_eq!(s.pending()[0].channel, 10);
    assert_eq!(s.pending()[0].content, "hey https://fixthreads.seria.moe/@u/post/c");
}

fn video(id: &str, live: Option<LiveDetails>) -> Video {
    Video { id: id.into(), channel: "UC1".into(), title: "Title".into(), live, views: Some(12), likes: None }
}

#[test]
fn notices_become_deliveries_and_event_updates() {
    let c = config();
    let mut s = State::default();
    let v = video("s", None);
    announce(&mut s, &c, Notice::Uploaded(&v), 0);
    assert_eq!(s.pending().len(), 2);
    assert_eq!(s.pending()[0].content, "hey https://www.youtube.com/watch?v=s");
    assert_eq!(s.pending()[1].content, "https://www.youtube.com/watch?v=s");
    announce(&mut s, &c, Notice::Scheduled { video: &v, at: 100 }, 0);
    assert_eq!(s.pending()[2].content, "hey 📅 直播預定 <t:100:F>（<t:100:R>）\nhttps://www.youtube.com/watch?v=s");
    assert_eq!(
        s.pending()[3].event,
        Some(EventCreation { video: "s".into(), title: "Title".into(), at: 100 })
    );
    announce(&mut s, &c, Notice::Rescheduled { video: &v, at: 50, event_id: Some(7) }, 60);
    assert!(s.event_updates().is_empty(), "a new start in the past is not applied");
    announce(&mut s, &c, Notice::Rescheduled { video: &v, at: 70, event_id: Some(7) }, 60);
    announce(&mut s, &c, Notice::Started { video: &v, event_id: Some(7) }, 60);
    announce(&mut s, &c, Notice::Ended { video: &v, started: 100, ended: 9_342, event_id: Some(7) }, 60);
    let updates: Vec<_> = s.event_updates().iter().map(|u| u.action).collect();
    assert_eq!(updates, [EventAction::Reschedule(70), EventAction::Start, EventAction::Complete]);
    assert_eq!(s.pending().len(), 8);
    assert_eq!(s.pending()[7].content, "📺 直播結束 ｜ 🕑 2:34:02 ｜ 👀 12 ｜ ❤️ ?\nhttps://www.youtube.com/watch?v=s");
}

#[test]
fn youtube_round_baselines_new_channels_and_announces_known_ones() {
    let c = config();
    let mut s = State::default();
    let listings = vec![Listing { channel: "UC1".into(), ids: Some(vec!["b".into(), "a".into()]) }];
    let mut plan = plan_youtube_round(&s, &listings);
    assert_eq!(plan.candidates, ["a", "b"]);
    let vids = vec![video("a", None), video("b", None)];
    let requested = plan.candidates.clone();
    observe_videos(&mut s, &c, &mut plan, &requested, &vids, 5);
    finish_youtube_round(&mut s, &plan, 5);
    assert!(s.pending().is_empty(), "first snapshot only records");
    assert!(s.is_seen(&seen_key("UC1"), "a"));

    let listings = vec![Listing { channel: "UC1".into(), ids: Some(vec!["c".into(), "b".into(), "a".into()]) }];
    let mut plan = plan_youtube_round(&s, &listings);
    assert_eq!(plan.candidates, ["c"]);
    let requested = plan.candidates.clone();
    observe_videos(&mut s, &c, &mut plan, &requested, &vec![video("c", None)], 6);
    finish_youtube_round(&mut s, &plan, 6);
    assert_eq!(s.pending().len(), 2);
}

#[test]
fn a_partial_first_snapshot_is_retried() {
    let c = config();
    let mut s = State::default();
    let listings = vec![Listing { channel: "UC1".into(), ids: Some(vec!["b".into(), "a".into()]) }];
    let mut plan = plan_youtube_round(&s, &listings);
    observe_videos(&mut s, &c, &mut plan, &vec!["a".to_string()], &vec![video("a", None)], 5);
    finish_youtube_round(&mut s, &plan, 5);
    assert!(!s.has_seen_key(&seen_key("UC1")));
}

#[test]
fn deliveries_create_and_link_the_event_of_their_stream() {
    let mut s = State::default();
    let v = video("s", Some(LiveDetails { scheduled: Some(100), ..Default::default() }));
    observe(&mut s, &v, 0);
    let mut l = s.live("s").unwrap();
    l.scheduled = Some(150);
    s.insert_live("s", l);
    let d = Delivery {
        channel: 10,
        content: "📅 <t:100:F>（<t:100:R>）".into(),
        event: Some(EventCreation { video: "s".into(), title: "Title".into(), at: 100 }),
    };
    let req = event_request(&s, &d, 10).unwrap();
    assert_eq!(req.start, 150);
    assert_eq!(req.url, "https://www.youtube.com/watch?v=s");
    assert!(event_request(&s, &d, 150).is_none(), "no event for a start that has passed");
    assert_eq!(delivery_content(&s, &d, 1), "📅 <t:150:F>（<t:150:R>）");
    record_event(&mut s, "s", 7);
    assert!(event_request(&s, &d, 10).is_none());
    assert_eq!(
        delivery_content(&s, &d, 1),
        "📅 <t:150:F>（<t:150:R>）\nhttps://discord.com/events/1/7"
    );
    assert_eq!(s.live("s").unwrap(), Live { first_seen: 0, scheduled: Some(150), started: None, event_id: Some(7) });
}

#[test]
fn a_blocked_channel_keeps_its_order() {
    let mut s = State::default();
    for (channel, text) in [(1, "first"), (2, "other"), (1, "second")] {
        s.push_delivery(Delivery { channel, content: text.into(), event: None });
    }
    let mut cursor = Cursor::new();
    let d = cursor.next_delivery(&s).unwrap();
    assert_eq!(d.content, "first");
    cursor.delivery_done(&mut s, Some(Failure::Status(403)));
    let d = cursor.next_delivery(&s).unwrap();
    assert_eq!(d.content, "other");
    cursor.delivery_done(&mut s, None);
    assert!(cursor.next_delivery(&s).is_none(), "channel 1 stays blocked for this pass");
    let kept: Vec<_> = s.pending().iter().map(|d| d.content.clone()).collect();
    assert_eq!(kept, ["first", "second"]);

    let mut cursor = Cursor::new();
    cursor.next_delivery(&s).unwrap();
    cursor.delivery_done(&mut s, Some(Failure::Status(404)));
    assert_eq!(cursor.next_delivery(&s).unwrap().content, "second");
}

#[test]
fn event_updates_are_retried_only_for_transient_failures() {
    let mut s = State::default();
    s.push_event_update(EventUpdate { event: 7, action: EventAction::Start });
    s.push_event_update(EventUpdate { event: 7, action: EventAction::Complete });
    s.push_event_update(EventUpdate { event: 8, action: EventAction::Reschedule(5) });
    let mut cursor = Cursor::new();
    let u = cursor.next_event_update(&s).unwrap();
    assert_eq!(event_call(u, 0), Some(EventCall::SetStatus { event: 7, status: EventStatus::Active }));
    cursor.event_update_done(&mut s, Some(Failure::Status(500)));
    let u = cursor.next_event_update(&s).unwrap();
    assert_eq!(u.event, 8);
    assert_eq!(event_call(u, 10), None);
    cursor.event_update_done(&mut s, None);
    assert!(cursor.next_event_update(&s).is_none());
    assert_eq!(s.event_updates().len(), 2);
}

#[test]
fn a_failed_event_creation_blocks_only_when_worth_retrying() {
    let mut s = State::default();
    for (channel, text) in [(1, "scheduled"), (1, "later"), (2, "other")] {
        s.push_delivery(Delivery { channel, content: text.into(), event: None });
    }
    let mut cursor = Cursor::new();
    assert_eq!(cursor.next_delivery(&s).unwrap().content, "scheduled");
    assert!(!cursor.event_creation_failed(&s, Failure::Status(503)), "a transient failure holds the notice");
    assert_eq!(cursor.next_delivery(&s).unwrap().content, "other", "its channel is blocked for the pass");
    cursor.delivery_done(&mut s, None);
    assert!(cursor.next_delivery(&s).is_none());
    assert_eq!(s.pending().len(), 2);

    let mut cursor = Cursor::new();
    assert_eq!(cursor.next_delivery(&s).unwrap().content, "scheduled");
    assert!(cursor.event_creation_failed(&s, Failure::Status(403)), "missing permissions still send");
    cursor.delivery_done(&mut s, None);
    assert_eq!(cursor.next_delivery(&s).unwrap().content, "later");
}
