use pibipu::discord::EventStatus::{Active, Canceled, Completed, Scheduled, Unknown};
use pibipu::discord::{
    event_link, event_name, event_window, needs_reschedule, next_status, retryable, retryable_message,
    retryable_status, EventStatus, Failure, EVENT_SECS,
};

#[test]
fn event_updates_follow_discord_transitions_and_ignore_replays() {
    assert_eq!(next_status(Scheduled, Active), Some(Active));
    assert_eq!(next_status(Scheduled, Completed), Some(Active));
    assert_eq!(next_status(Active, Completed), Some(Completed));
    assert_eq!(next_status(Active, Active), None);
    assert_eq!(next_status(Completed, Completed), None);
    assert_eq!(next_status(Completed, Active), None);
    assert_eq!(next_status(Canceled, Active), None);
}

#[test]
fn retry_transient_failures_only() {
    for code in [429, 500, 502, 503, 504] {
        assert!(retryable_status(code));
    }
    for code in [400, 401, 403, 404] {
        assert!(!retryable_status(code));
    }
    assert!(!retryable(Failure::Other));
    assert!(retryable(Failure::RateLimited));
}

#[test]
fn status_updates_settle_within_two_edits() {
    for start in [Scheduled, Active, Completed, Canceled, Unknown(9)] {
        for want in [Active, Completed] {
            let mut current = start;
            let mut edits = 0;
            while let Some(next) = next_status(current, want) {
                current = next;
                edits += 1;
            }
            assert!(edits <= 2);
            assert!(current == want || current == Completed || current == Canceled);
        }
    }
}

#[test]
fn messages_keep_waiting_on_permissions_but_not_on_bad_requests() {
    assert!(retryable_message(Failure::Status(401)));
    assert!(retryable_message(Failure::Status(403)));
    assert!(retryable_message(Failure::Status(503)));
    assert!(!retryable_message(Failure::Status(400)));
    assert!(!retryable_message(Failure::Status(404)));
    assert!(!retryable(Failure::Status(403)));
    assert!(retryable(Failure::Request { builder: false }));
    assert!(!retryable(Failure::Request { builder: true }));
}

#[test]
fn events_are_named_timed_and_linked() {
    let long: String = "字".repeat(130);
    assert_eq!(event_name(&long).chars().count(), 100);
    assert_eq!(event_name("stream"), "stream");
    assert_eq!(event_window(1000), Some((1000, 1000 + EVENT_SECS)));
    assert_eq!(event_window(i64::MAX - 10), None);
    assert_eq!(event_link(1, 7), "https://discord.com/events/1/7");
    assert!(needs_reschedule(EventStatus::Scheduled, 100, 200, 150));
    assert!(!needs_reschedule(EventStatus::Active, 100, 200, 150));
    assert!(!needs_reschedule(EventStatus::Scheduled, 200, 200, 150));
    assert!(!needs_reschedule(EventStatus::Scheduled, 100, 140, 150));
}
