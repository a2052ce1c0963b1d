use pibipu::state::{Live, State, KEEP, LIVE_TTL};

#[test]
fn stale_lives_are_pruned() {
    let mut s = State::default();
    s.insert_live(
        "old",
        Live {
            first_seen: 0,
            scheduled: None,
            started: Some(1),
            event_id: None,
        },
    );
    s.insert_live(
        "new",
        Live {
            first_seen: LIVE_TTL,
            scheduled: None,
            started: Some(1),
            event_id: None,
        },
    );
    s.insert_live(
        "future",
        Live {
            first_seen: 0,
            scheduled: Some(2 * LIVE_TTL),
            started: None,
            event_id: None,
        },
    );
    s.prune_lives(LIVE_TTL + 1);
    assert_eq!(s.lives_len(), 2);
    assert!(s.live("new").is_some());
    assert!(
        s.live("future").is_some(),
        "do not expire a stream before its scheduled date"
    );
}

#[test]
fn seen_ids_are_bounded_and_the_oldest_is_evicted() {
    let mut s = State::default();
    assert!(s.mark_seen("k", "a"));
    assert!(!s.mark_seen("k", "a"));
    assert!(s.is_seen("k", "a"));
    for i in 0..KEEP {
        s.mark_seen("k", &i.to_string());
    }
    assert_eq!(s.seen_ids("k").unwrap().len(), KEEP);
    assert!(
        !s.seen_ids("k").unwrap().contains(&"a".to_owned()),
        "oldest id evicted"
    );
    assert!(!s.is_seen("k", "a"));
    assert!(s.is_seen("k", "199"));
    assert!(!s.is_seen("other", "199"));
}

#[test]
fn keys_can_exist_empty_and_be_removed() {
    let mut s = State::default();
    assert!(!s.has_seen_key("k"));
    s.ensure_seen_key("k");
    assert!(s.has_seen_key("k"));
    assert_eq!(s.seen_ids("k").unwrap().len(), 0);
    s.mark_seen("k", "x");
    s.ensure_seen_key("k");
    assert_eq!(s.seen_ids("k").unwrap().len(), 1);
    s.remove_seen_key("k");
    assert!(!s.has_seen_key("k"));
    assert!(s.seen_keys().is_empty());
}

#[test]
fn prune_keeps_a_live_exactly_until_the_ttl_has_passed() {
    let mut s = State::default();
    s.insert_live("a", Live { first_seen: 100, scheduled: None, started: None, event_id: None });
    s.prune_lives(100 + LIVE_TTL - 1);
    assert_eq!(s.lives_len(), 1);
    s.prune_lives(100 + LIVE_TTL);
    assert_eq!(s.lives_len(), 0);
}

#[test]
fn pruning_twice_drops_nothing_more() {
    let mut s = State::default();
    s.insert_live("a", Live { first_seen: 100, scheduled: None, started: None, event_id: None });
    s.insert_live("b", Live { first_seen: 0, scheduled: Some(500), started: None, event_id: Some(3) });
    s.prune_lives(100 + LIVE_TTL);
    assert_eq!(s.live_ids(), ["b"]);
    s.prune_lives(100 + LIVE_TTL);
    assert_eq!(s.live_ids(), ["b"]);
    assert_eq!(s.live("b"), Some(Live { first_seen: 0, scheduled: Some(500), started: None, event_id: Some(3) }));
}
