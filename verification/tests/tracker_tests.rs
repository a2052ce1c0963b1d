use pibipu::state::{Live, State};
use pibipu::tracker::{baseline, observe, seen_key, LiveDetails, Notice, Video};

fn video(id: &str, live: Option<LiveDetails>) -> Video {
    Video {
        id: id.into(),
        channel: "UC1".into(),
        title: id.into(),
        live,
        views: None,
        likes: None,
    }
}

#[test]
fn upload_is_announced_once() {
    let mut s = State::default();
    let v = video("a", None);
    assert_eq!(observe(&mut s, &v, 0), [Notice::Uploaded(&v)]);
    assert!(observe(&mut s, &v, 0).is_empty());
    assert!(s.lives_len() == 0);
}

#[test]
fn stream_goes_scheduled_rescheduled_started_ended() {
    let mut s = State::default();
    let v = video(
        "s",
        Some(LiveDetails {
            scheduled: Some(100),
            ..Default::default()
        }),
    );
    assert_eq!(
        observe(&mut s, &v, 0),
        [Notice::Scheduled { video: &v, at: 100 }]
    );
    assert!(
        observe(&mut s, &v, 1).is_empty(),
        "same schedule, nothing new"
    );
    let mut l = s.live("s").unwrap();
    l.event_id = Some(7);
    s.insert_live("s", l);

    let v = video(
        "s",
        Some(LiveDetails {
            scheduled: Some(200),
            ..Default::default()
        }),
    );
    assert_eq!(
        observe(&mut s, &v, 2),
        [Notice::Rescheduled {
            video: &v,
            at: 200,
            event_id: Some(7)
        }]
    );

    let v = video(
        "s",
        Some(LiveDetails {
            scheduled: Some(200),
            started: Some(205),
            ended: None,
        }),
    );
    assert_eq!(
        observe(&mut s, &v, 3),
        [Notice::Started {
            video: &v,
            event_id: Some(7)
        }]
    );
    assert!(observe(&mut s, &v, 4).is_empty());

    let v = video(
        "s",
        Some(LiveDetails {
            scheduled: Some(150),
            started: Some(205),
            ended: Some(900),
        }),
    );
    assert_eq!(
        observe(&mut s, &v, 5),
        [Notice::Ended {
            video: &v,
            started: 205,
            ended: 900,
            event_id: Some(7)
        }],
        "a schedule change after start is not a reschedule"
    );
    assert!(s.lives_len() == 0, "finished streams stop being tracked");
    assert!(
        observe(&mut s, &v, 6).is_empty(),
        "and are not announced again"
    );
}

#[test]
fn stream_first_seen_on_air_or_finished() {
    let mut s = State::default();
    let on_air = video(
        "l",
        Some(LiveDetails {
            scheduled: Some(1),
            started: Some(2),
            ended: None,
        }),
    );
    assert_eq!(
        observe(&mut s, &on_air, 0),
        [Notice::Started {
            video: &on_air,
            event_id: None
        }]
    );

    let over = video(
        "o",
        Some(LiveDetails {
            scheduled: Some(1),
            started: Some(2),
            ended: Some(3),
        }),
    );
    assert_eq!(
        observe(&mut s, &over, 4),
        [Notice::Ended {
            video: &over,
            started: 2,
            ended: 3,
            event_id: None
        }]
    );
    assert!(observe(&mut s, &over, 5).is_empty());
    assert!(s.live("o").is_none());
    assert!(
        !s.mark_seen(&seen_key("UC1"), "o"),
        "still remembered so it is never re-examined"
    );
}

#[test]
fn first_snapshot_tracks_streams_without_replaying_their_existing_status() {
    let mut s = State::default();
    let mut scheduled = video(
        "scheduled",
        Some(LiveDetails {
            scheduled: Some(100),
            ..Default::default()
        }),
    );
    let mut live = video(
        "live",
        Some(LiveDetails {
            started: Some(1),
            ..Default::default()
        }),
    );
    let ended = video(
        "ended",
        Some(LiveDetails {
            started: Some(1),
            ended: Some(2),
            ..Default::default()
        }),
    );
    for v in [&scheduled, &live, &video("upload", None), &ended] {
        baseline(&mut s, v, 10);
        assert!(observe(&mut s, v, 11).is_empty());
    }
    assert_eq!(s.lives_len(), 2);
    assert!(s
        .live_ids()
        .iter()
        .all(|id| s.live(id).unwrap().event_id.is_none()));
    scheduled.live.as_mut().unwrap().started = Some(102);
    assert!(matches!(
        observe(&mut s, &scheduled, 103).as_slice(),
        [Notice::Started { .. }]
    ));
    live.live.as_mut().unwrap().ended = Some(104);
    assert!(matches!(
        observe(&mut s, &live, 105).as_slice(),
        [Notice::Ended { .. }]
    ));
}

#[test]
fn incomplete_stream_metadata_is_not_an_upload_and_start_does_not_reschedule() {
    let mut s = State::default();
    let mut v = video("v", Some(LiveDetails::default()));
    assert!(observe(&mut s, &v, 0).is_empty());
    v.live.as_mut().unwrap().scheduled = Some(100);
    assert!(matches!(
        observe(&mut s, &v, 1).as_slice(),
        [Notice::Scheduled { at: 100, .. }]
    ));
    v.live = Some(LiveDetails {
        scheduled: Some(105),
        started: Some(110),
        ended: Some(120),
    });
    assert!(matches!(
        observe(&mut s, &v, 121).as_slice(),
        [Notice::Started { .. }, Notice::Ended { .. }]
    ));
}

#[test]
fn observing_the_same_snapshot_twice_is_silent() {
    let mut s = State::default();
    for v in [
        video("u", None),
        video("p", Some(LiveDetails { scheduled: Some(50), ..Default::default() })),
        video("q", Some(LiveDetails { started: Some(5), ..Default::default() })),
        video("r", Some(LiveDetails { started: Some(5), ended: Some(9), ..Default::default() })),
    ] {
        assert_eq!(observe(&mut s, &v, 1).len(), 1);
        assert!(observe(&mut s, &v, 2).is_empty());
    }
    assert!(s.live("r").is_none(), "finished streams are not tracked");
}

#[test]
fn tracked_stream_keeps_when_it_was_first_seen() {
    let mut s = State::default();
    let v = video("t", Some(LiveDetails { scheduled: Some(500), ..Default::default() }));
    observe(&mut s, &v, 42);
    assert_eq!(
        s.live("t"),
        Some(Live { first_seen: 42, scheduled: Some(500), started: None, event_id: None })
    );
}
