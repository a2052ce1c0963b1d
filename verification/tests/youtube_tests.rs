use pibipu::tracker::LiveDetails;
use pibipu::youtube::{redact, unix, uploads_playlist, video_of, videos_of, LiveTimes, VideoItem, YoutubeError};

#[test]
fn youtube_timestamps_parse_to_unix() {
    assert_eq!(
        unix(&Some("2026-09-05T09:57:22Z".into())).unwrap(),
        Some(1_788_602_242)
    );
    assert_eq!(unix(&None).unwrap(), None);
    assert!(unix(&Some("yesterday".into())).is_err());
}

#[test]
fn uploads_playlist_swaps_uc_for_uu() {
    assert_eq!(uploads_playlist("UCG3hBfZxzLixJPZQ9QUP_Lw").unwrap(), "UUG3hBfZxzLixJPZQ9QUP_Lw");
    assert_eq!(uploads_playlist("@handle"), Err(YoutubeError::NotAChannel));
}

fn item(id: &str, views: Option<&str>, live: Option<LiveTimes>) -> VideoItem {
    VideoItem {
        id: id.into(),
        title: "t".into(),
        channel_id: "UC1".into(),
        view_count: views.map(|s| s.to_string()),
        like_count: None,
        live,
    }
}

#[test]
fn video_details_become_videos() {
    let v = video_of(&item("a", Some("1499"), None)).unwrap();
    assert_eq!(v.views, Some(1499));
    assert_eq!(v.likes, None);
    assert_eq!(v.live, None);
    assert_eq!(video_of(&item("b", Some("many"), None)).unwrap().views, None);
    let live = LiveTimes {
        scheduled_start_time: Some("2026-09-05T09:57:22Z".into()),
        actual_start_time: None,
        actual_end_time: None,
    };
    assert_eq!(
        video_of(&item("c", None, Some(live))).unwrap().live,
        Some(LiveDetails { scheduled: Some(1_788_602_242), started: None, ended: None })
    );
    let broken = LiveTimes { scheduled_start_time: None, actual_start_time: Some("soon".into()), actual_end_time: None };
    assert!(videos_of(&vec![item("d", None, None), item("e", None, Some(broken))]).is_err());
    assert_eq!(videos_of(&vec![item("d", None, None), item("f", None, None)]).unwrap().len(), 2);
}

#[test]
fn api_key_is_redacted_from_error_bodies() {
    assert_eq!(redact("bad key secret-api-key!", "secret-api-key"), "bad key [redacted]!");
    assert_eq!(redact("body", ""), "body");
}
