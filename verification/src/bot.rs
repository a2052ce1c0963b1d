//! The bot's decisions between network calls: what a Threads or YouTube round queues, how queued
//! deliveries and event updates are worked through, and the text of every notice.
use vstd::prelude::*;
use std::collections::VecDeque;
use crate::config::{prefix_text, target_views, threads_subscribers, Config, ConfigView, Target, TargetView};
use crate::state::{creation_view, law_marking_remembers_within_bound, marked, KEEP, Delivery, DeliveryView, EventCreation, EventCreationView, State, StateView};
use crate::text::{append_chars, append_str, decimal, digits, join2, signed_decimal, signed_digits, string_of};
use crate::tracker::{notice_kinds, video_url_of, Notice, NoticeKind, Video, VideoView};
use crate::config::youtube_subscribers;
use crate::state::{EventAction, EventUpdate};
use crate::threads::{Post, PostView};
use crate::tracker::{observe, observe_spec, seen_key, seen_key_of, with_seen};
use crate::state::{pruned, strings_view};
use crate::config::strings_contain;
use crate::discord::{next_status_spec, event_link, event_link_of, retryable, retryable_message, retryable_spec, EventStatus, Failure};
use crate::text::{chars_of, replace_all, replace_chars};
use crate::tracker::or_else;
use crate::state::Live;

verus! {

pub open spec fn threads_key_of(user: Seq<char>) -> Seq<char> {
    "threads:"@ + user
}

/// The key under which a Threads account's post codes are remembered.
pub fn threads_key(user: &str) -> (r: String)
    ensures
        r@ == threads_key_of(user@),
{
    join2("threads:", user)
}

/// One delivery of `text` to each target, with the target's prefix for `kind`.
pub open spec fn deliveries_for(subs: Seq<TargetView>, kind: Seq<char>, text: Seq<char>, event: Option<EventCreationView>) -> Seq<DeliveryView>
    decreases subs.len(),
{
    if subs.len() == 0 {
        Seq::empty()
    } else {
        deliveries_for(subs.drop_last(), kind, text, event).push(
            DeliveryView { channel: subs.last().channel_id, content: prefix_text(subs.last().prefix, kind) + text, event },
        )
    }
}

/// `after` is `before` followed by one delivery per target, in order: to the target's channel,
/// `text` behind the target's prefix for `kind`, with `event`.
pub open spec fn appended_per_target(
    before: Seq<DeliveryView>,
    after: Seq<DeliveryView>,
    subs: Seq<TargetView>,
    kind: Seq<char>,
    text: Seq<char>,
    event: Option<EventCreationView>,
) -> bool {
    &&& after.len() == before.len() + subs.len()
    &&& forall|k: int| 0 <= k < before.len() ==> #[trigger] after[k] == before[k]
    &&& forall|k: int| 0 <= k < subs.len() ==> #[trigger] after[before.len() + k] == (DeliveryView {
        channel: subs[k].channel_id,
        content: prefix_text(subs[k].prefix, kind) + text,
        event,
    })
}

proof fn lemma_deliveries_for(before: Seq<DeliveryView>, subs: Seq<TargetView>, kind: Seq<char>, text: Seq<char>, event: Option<EventCreationView>)
    ensures
        appended_per_target(before, before + deliveries_for(subs, kind, text, event), subs, kind, text, event),
    decreases subs.len(),
{
    if subs.len() > 0 {
        let rest = subs.drop_last();
        lemma_deliveries_for(before, rest, kind, text, event);
        let after = before + deliveries_for(subs, kind, text, event);
        let mid = before + deliveries_for(rest, kind, text, event);
        assert(after =~= mid.push(DeliveryView { channel: subs.last().channel_id, content: prefix_text(subs.last().prefix, kind) + text, event }));
        assert forall|k: int| 0 <= k < subs.len() implies #[trigger] after[before.len() + k] == (DeliveryView {
            channel: subs[k].channel_id,
            content: prefix_text(subs[k].prefix, kind) + text,
            event,
        }) by {
            if k < rest.len() {
                assert(after[before.len() + k] == mid[before.len() + k]);
                assert(rest[k] == subs[k]);
            }
        }
        assert forall|k: int| 0 <= k < before.len() implies #[trigger] after[k] == before[k] by {
            assert(after[k] == mid[k]);
        }
    }
}

pub open spec fn posts_view(posts: Seq<Post>) -> Seq<PostView> {
    posts.map_values(|p: Post| p@)
}

/// One post of a Threads round: remember its code, and queue it for every subscribed channel
/// when it is new and the source already had a baseline.
pub open spec fn threads_post_step(s: StateView, c: ConfigView, user: Seq<char>, announce: bool, p: PostView) -> StateView {
    let key = threads_key_of(user);
    let new = !s.is_seen(key, p.code);
    let s1 = with_seen(s, s.seen.insert(key, marked(s.seen_list(key), p.code)));
    if new && announce {
        StateView {
            pending: s1.pending + deliveries_for(threads_subscribers(c.targets, user), "threads"@, p.url, None),
            ..s1
        }
    } else {
        s1
    }
}

pub open spec fn threads_posts_fold(s: StateView, c: ConfigView, user: Seq<char>, announce: bool, posts: Seq<PostView>) -> StateView
    decreases posts.len(),
{
    if posts.len() == 0 {
        s
    } else {
        threads_post_step(threads_posts_fold(s, c, user, announce, posts.drop_last()), c, user, announce, posts.last())
    }
}

/// The state after a successful fetch of `user`'s posts: the key exists from now on, and the
/// posts are handled oldest first; a source seen for the first time only records its baseline.
pub open spec fn threads_round_spec(s: StateView, c: ConfigView, user: Seq<char>, posts: Seq<PostView>) -> StateView {
    let key = threads_key_of(user);
    let announce = s.seen.contains_key(key);
    let s0 = with_seen(s, s.seen.insert(key, s.seen_list(key)));
    threads_posts_fold(s0, c, user, announce, posts)
}

fn queue_for_targets(state: &mut State, subs: &Vec<&Target>, kind: &str, text: &str, event: &Option<EventCreation>)
    requires
        old(state).wf(),
    ensures
        final(state).wf(),
        final(state)@ == (StateView {
            pending: old(state)@.pending + deliveries_for(target_views(subs@), kind@, text@, creation_view(*event)),
            ..old(state)@
        }),
{
    let ghost s0 = state@;
    let mut i: usize = 0;
    assert(target_views(subs@).take(0) =~= Seq::<TargetView>::empty());
    assert(s0.pending + Seq::<DeliveryView>::empty() =~= s0.pending);
    while i < subs.len()
        invariant
            i <= subs@.len(),
            state.wf(),
            state@ == (StateView {
                pending: s0.pending + deliveries_for(target_views(subs@).take(i as int), kind@, text@, creation_view(*event)),
                ..s0
            }),
        decreases subs@.len() - i,
    {
        let t = subs[i];
        let prefix = t.prefix(kind);
        let content = join2(prefix.as_str(), text);
        let ev = match event {
            Some(e) => Some(e.duplicate()),
            None => None,
        };
        state.push_delivery(Delivery { channel: t.channel_id, content, event: ev });
        proof {
            let tv = target_views(subs@);
            assert(tv.take(i as int + 1).drop_last() =~= tv.take(i as int));
            assert(tv.take(i as int + 1).last() == t@);
            assert(state@.pending =~= s0.pending + deliveries_for(tv.take(i as int + 1), kind@, text@, creation_view(*event)));
        }
        i = i + 1;
    }
    assert(target_views(subs@).take(i as int) =~= target_views(subs@));
}

/// Records the posts of one Threads account after a successful fetch and queues the new ones for
/// every channel subscribed to it. The first successful fetch of an account records a baseline only.
pub fn record_threads_posts(state: &mut State, config: &Config, user: &str, posts: &Vec<Post>)
    requires
        old(state).wf(),
    ensures
        final(state).wf(),
        final(state)@ == threads_round_spec(old(state)@, config@, user@, posts_view(posts@)),
{
    let key = threads_key(user);
    let announce = state.has_seen_key(key.as_str());
    state.ensure_seen_key(key.as_str());
    let subs = config.targets_for_threads(user);
    let ghost s0 = state@;
    let mut i: usize = 0;
    assert(posts_view(posts@).take(0) =~= Seq::<PostView>::empty());
    while i < posts.len()
        invariant
            i <= posts@.len(),
            state.wf(),
            target_views(subs@) == threads_subscribers(config@.targets, user@),
            key@ == threads_key_of(user@),
            state@ == threads_posts_fold(s0, config@, user@, announce, posts_view(posts@).take(i as int)),
        decreases posts@.len() - i,
    {
        let p = &posts[i];
        let ghost before = state@;
        let new = state.mark_seen(key.as_str(), p.code.as_str());
        if new && announce {
            queue_for_targets(state, &subs, "threads", p.url.as_str(), &None);
        }
        proof {
            let pv = posts_view(posts@);
            assert(pv.take(i as int + 1).drop_last() =~= pv.take(i as int));
            assert(pv.take(i as int + 1).last() == p@);
        }
        i = i + 1;
    }
    assert(posts_view(posts@).take(i as int) =~= posts_view(posts@));
}

/// A source polled for the first time queues nothing: its posts become the baseline.
pub proof fn law_first_fetch_is_a_baseline(s: StateView, c: ConfigView, user: Seq<char>, posts: Seq<PostView>)
    requires
        !s.seen.contains_key(threads_key_of(user)),
    ensures
        threads_round_spec(s, c, user, posts).pending == s.pending,
    decreases posts.len(),
{
    lemma_fold_without_announce(with_seen(s, s.seen.insert(threads_key_of(user), s.seen_list(threads_key_of(user)))), c, user, posts);
}

proof fn lemma_fold_without_announce(s: StateView, c: ConfigView, user: Seq<char>, posts: Seq<PostView>)
    ensures
        threads_posts_fold(s, c, user, false, posts).pending == s.pending,
    decreases posts.len(),
{
    if posts.len() > 0 {
        lemma_fold_without_announce(s, c, user, posts.drop_last());
    }
}

/// A delivery of one of `posts` to one of the accounts' subscribers, behind that subscriber's
/// prefix for Threads notices.
pub open spec fn threads_delivery(subs: Seq<TargetView>, posts: Seq<PostView>, d: DeliveryView) -> bool {
    exists|i: int, j: int| 0 <= i < subs.len() && 0 <= j < posts.len() && d == (DeliveryView {
        channel: subs[i].channel_id,
        content: prefix_text(subs[i].prefix, "threads"@) + posts[j].url,
        event: None,
    })
}

proof fn lemma_fold_queues_threads_deliveries(s: StateView, c: ConfigView, user: Seq<char>, announce: bool, posts: Seq<PostView>)
    ensures
        ({
            let t = threads_posts_fold(s, c, user, announce, posts);
            let subs = threads_subscribers(c.targets, user);
            &&& t.pending.len() >= s.pending.len()
            &&& forall|k: int| 0 <= k < s.pending.len() ==> #[trigger] t.pending[k] == s.pending[k]
            &&& forall|k: int| s.pending.len() <= k < t.pending.len() ==> threads_delivery(subs, posts, #[trigger] t.pending[k])
        }),
    decreases posts.len(),
{
    if posts.len() > 0 {
        let rest = posts.drop_last();
        let p = posts.last();
        let subs = threads_subscribers(c.targets, user);
        lemma_fold_queues_threads_deliveries(s, c, user, announce, rest);
        let m = threads_posts_fold(s, c, user, announce, rest);
        let t = threads_posts_fold(s, c, user, announce, posts);
        let key = threads_key_of(user);
        if !m.is_seen(key, p.code) && announce {
            lemma_deliveries_for(m.pending, subs, "threads"@, p.url, None);
            assert forall|k: int| s.pending.len() <= k < t.pending.len() implies threads_delivery(subs, posts, #[trigger] t.pending[k]) by {
                if k < m.pending.len() {
                    assert(t.pending[k] == m.pending[k]);
                    assert(threads_delivery(subs, rest, m.pending[k]));
                    let (i, j) = choose|i: int, j: int| 0 <= i < subs.len() && 0 <= j < rest.len() && m.pending[k] == (DeliveryView {
                        channel: subs[i].channel_id,
                        content: prefix_text(subs[i].prefix, "threads"@) + rest[j].url,
                        event: None,
                    });
                    assert(posts[j] == rest[j]);
                } else {
                    let i = k - m.pending.len();
                    assert(t.pending[m.pending.len() + i] == t.pending[k]);
                    assert(posts[posts.len() - 1] == p);
                }
            }
            assert forall|k: int| 0 <= k < s.pending.len() implies #[trigger] t.pending[k] == s.pending[k] by {
                assert(t.pending[k] == m.pending[k]);
            }
        } else {
            assert forall|k: int| s.pending.len() <= k < t.pending.len() implies threads_delivery(subs, posts, #[trigger] t.pending[k]) by {
                assert(threads_delivery(subs, rest, m.pending[k]));
                let (i, j) = choose|i: int, j: int| 0 <= i < subs.len() && 0 <= j < rest.len() && m.pending[k] == (DeliveryView {
                    channel: subs[i].channel_id,
                    content: prefix_text(subs[i].prefix, "threads"@) + rest[j].url,
                    event: None,
                });
                assert(posts[j] == rest[j]);
            }
        }
    }
}

/// A Threads round only appends to the queue, and everything it appends is one of the fetched
/// posts' links sent to a channel subscribed to the account, behind that channel's prefix for
/// Threads notices.
pub proof fn law_threads_posts_use_the_threads_prefix(s: StateView, c: ConfigView, user: Seq<char>, posts: Seq<PostView>)
    ensures
        ({
            let t = threads_round_spec(s, c, user, posts);
            &&& t.pending.len() >= s.pending.len()
            &&& forall|k: int| 0 <= k < s.pending.len() ==> #[trigger] t.pending[k] == s.pending[k]
            &&& forall|k: int| s.pending.len() <= k < t.pending.len() ==>
                threads_delivery(threads_subscribers(c.targets, user), posts, #[trigger] t.pending[k])
        }),
{
    let key = threads_key_of(user);
    lemma_fold_queues_threads_deliveries(with_seen(s, s.seen.insert(key, s.seen_list(key))), c, user, s.seen.contains_key(key), posts);
}

/// A new post of an account that already has a baseline is queued once for every subscribed
/// channel, in the order of the targets: its link behind the channel's prefix for Threads notices.
pub proof fn law_new_post_reaches_every_subscriber(s: StateView, c: ConfigView, user: Seq<char>, p: PostView)
    requires
        s.seen.contains_key(threads_key_of(user)),
        !s.is_seen(threads_key_of(user), p.code),
    ensures
        appended_per_target(s.pending, threads_round_spec(s, c, user, seq![p]).pending, threads_subscribers(c.targets, user), "threads"@, p.url, None),
{
    let key = threads_key_of(user);
    let s0 = with_seen(s, s.seen.insert(key, s.seen_list(key)));
    assert(seq![p].drop_last() =~= Seq::<PostView>::empty());
    assert(s0.seen_list(key) == s.seen_list(key));
    assert(threads_posts_fold(s0, c, user, true, Seq::<PostView>::empty()) == s0);
    assert(seq![p].last() == p);
    assert(threads_posts_fold(s0, c, user, true, seq![p]) == threads_post_step(s0, c, user, true, p));
    assert(!s0.is_seen(key, p.code));
    let subs = threads_subscribers(c.targets, user);
    assert(threads_round_spec(s, c, user, seq![p]).pending == s.pending + deliveries_for(subs, "threads"@, p.url, None));
    lemma_deliveries_for(s.pending, subs, "threads"@, p.url, None);
}

/// Two digits, with a leading zero below ten.
pub open spec fn two_digits(n: nat) -> Seq<char> {
    if n < 10 {
        seq!['0'] + digits(n)
    } else {
        digits(n)
    }
}

/// `h:mm:ss` for a number of seconds.
pub open spec fn hms_of(secs: nat) -> Seq<char> {
    digits(secs / 3600) + ":"@ + two_digits(secs % 3600 / 60) + ":"@ + two_digits(secs % 60)
}

/// A count as the notice shows it: its digits, or `?` where YouTube hides it.
pub open spec fn count_of(n: Option<u64>) -> Seq<char> {
    match n {
        Some(x) => digits(x as nat),
        None => "?"@,
    }
}

fn push_two_digits(v: &mut Vec<char>, n: u64)
    requires
        n < 100,
    ensures
        final(v)@ == old(v)@ + two_digits(n as nat),
{
    if n < 10 {
        v.push('0');
    }
    append_chars(v, &decimal(n));
    if n < 10 {
        assert(final(v)@ =~= old(v)@ + two_digits(n as nat));
    }
}

fn hms_chars(secs: u64) -> (r: Vec<char>)
    ensures
        r@ == hms_of(secs as nat),
{
    let mut v = decimal(secs / 3600);
    append_str(&mut v, ":");
    push_two_digits(&mut v, secs % 3600 / 60);
    append_str(&mut v, ":");
    push_two_digits(&mut v, secs % 60);
    v
}

/// A duration as `h:mm:ss`; negative durations show as zero.
pub fn hms(secs: i64) -> (r: String)
    ensures
        r@ == hms_of(if secs < 0 { 0 } else { secs as nat }),
{
    let s: u64 = if secs < 0 { 0 } else { secs as u64 };
    string_of(hms_chars(s).as_slice())
}

/// A count, or `?` where there is none.
pub fn count(n: Option<u64>) -> (r: String)
    ensures
        r@ == count_of(n),
{
    match n {
        Some(x) => string_of(decimal(x).as_slice()),
        None => "?".to_owned(),
    }
}

/// How long a stream ran, in whole seconds; zero if it "ended" before it started.
pub open spec fn duration_of(started: i64, ended: i64) -> nat {
    if ended > started { (ended - started) as nat } else { 0 }
}

pub open spec fn scheduled_text(at: i64, url: Seq<char>) -> Seq<char> {
    "📅 直播預定 <t:"@ + signed_digits(at as int) + ":F>（<t:"@ + signed_digits(at as int) + ":R>）\n"@ + url
}

pub open spec fn ended_text(duration: nat, views: Option<u64>, likes: Option<u64>, url: Seq<char>) -> Seq<char> {
    "📺 直播結束 ｜ 🕑 "@ + hms_of(duration) + " ｜ 👀 "@ + count_of(views) + " ｜ ❤️ "@ + count_of(likes) + "\n"@ + url
}

pub open spec fn queue_youtube(s: StateView, c: ConfigView, v: VideoView, kind: Seq<char>, text: Seq<char>, event: Option<EventCreationView>) -> StateView {
    StateView { pending: s.pending + deliveries_for(youtube_subscribers(c.targets, v.channel), kind, text, event), ..s }
}

pub open spec fn push_update(s: StateView, event_id: Option<u64>, action: EventAction) -> StateView {
    match event_id {
        Some(e) => StateView { event_updates: s.event_updates.push(EventUpdate { event: e, action }), ..s },
        None => s,
    }
}

/// What announcing one notice about `v` queues: deliveries to the channels subscribed to the
/// video's channel, and updates of the Discord event tied to the stream.
pub open spec fn announce_spec(s: StateView, c: ConfigView, v: VideoView, n: NoticeKind, now: i64) -> StateView {
    let url = video_url_of(v.id);
    match n {
        NoticeKind::Uploaded => queue_youtube(s, c, v, "video"@, url, None),
        NoticeKind::Scheduled { at } => queue_youtube(
            s, c, v, "scheduled"@, scheduled_text(at, url),
            Some(EventCreationView { video: v.id, title: v.title, at }),
        ),
        NoticeKind::Rescheduled { at, event_id } => if at > now {
            push_update(s, event_id, EventAction::Reschedule(at))
        } else {
            s
        },
        NoticeKind::Started { event_id } => queue_youtube(
            push_update(s, event_id, EventAction::Start), c, v, "live"@, url, None,
        ),
        NoticeKind::Ended { started, ended, event_id } => queue_youtube(
            push_update(s, event_id, EventAction::Complete), c, v, "end"@,
            ended_text(duration_of(started, ended), v.views, v.likes, url), None,
        ),
    }
}

/// What announcing a notice queues, kind by kind: an upload, a first schedule, a start and an end
/// each reach every channel subscribed to the video's channel, in the order of the targets,
/// behind that channel's prefix for `video`, `scheduled`, `live` and `end` notices respectively;
/// only a first schedule carries the event to create. A start asks for the stream's event to
/// become active and an end for it to be completed; a new schedule sends nothing and moves the
/// event only to a start time still ahead.
pub proof fn law_notices_use_their_kind_prefix(s: StateView, c: ConfigView, v: VideoView, n: NoticeKind, now: i64)
    ensures
        ({
            let t = announce_spec(s, c, v, n, now);
            let subs = youtube_subscribers(c.targets, v.channel);
            let url = video_url_of(v.id);
            let update = |a: EventAction, e: Option<u64>| match e {
                Some(x) => s.event_updates.push(EventUpdate { event: x, action: a }),
                None => s.event_updates,
            };
            &&& t.seen == s.seen && t.lives == s.lives
            &&& match n {
                NoticeKind::Uploaded => appended_per_target(s.pending, t.pending, subs, "video"@, url, None)
                    && t.event_updates == s.event_updates,
                NoticeKind::Scheduled { at } => appended_per_target(s.pending, t.pending, subs, "scheduled"@, scheduled_text(at, url),
                    Some(EventCreationView { video: v.id, title: v.title, at }))
                    && t.event_updates == s.event_updates,
                NoticeKind::Rescheduled { at, event_id } => t.pending == s.pending
                    && t.event_updates == (if at > now { update(EventAction::Reschedule(at), event_id) } else { s.event_updates }),
                NoticeKind::Started { event_id } => appended_per_target(s.pending, t.pending, subs, "live"@, url, None)
                    && t.event_updates == update(EventAction::Start, event_id),
                NoticeKind::Ended { started, ended, event_id } => appended_per_target(s.pending, t.pending, subs, "end"@,
                    ended_text(duration_of(started, ended), v.views, v.likes, url), None)
                    && t.event_updates == update(EventAction::Complete, event_id),
            }
        }),
{
    let subs = youtube_subscribers(c.targets, v.channel);
    let url = video_url_of(v.id);
    match n {
        NoticeKind::Uploaded => lemma_deliveries_for(s.pending, subs, "video"@, url, None),
        NoticeKind::Scheduled { at } => lemma_deliveries_for(s.pending, subs, "scheduled"@, scheduled_text(at, url),
            Some(EventCreationView { video: v.id, title: v.title, at })),
        NoticeKind::Rescheduled { .. } => {},
        NoticeKind::Started { event_id } => lemma_deliveries_for(s.pending, subs, "live"@, url, None),
        NoticeKind::Ended { started, ended, event_id } => lemma_deliveries_for(s.pending, subs, "end"@,
            ended_text(duration_of(started, ended), v.views, v.likes, url), None),
    }
}

fn push_event_update_for(state: &mut State, event_id: Option<u64>, action: EventAction)
    requires
        old(state).wf(),
    ensures
        final(state).wf(),
        final(state)@ == push_update(old(state)@, event_id, action),
{
    if let Some(e) = event_id {
        state.push_event_update(EventUpdate { event: e, action });
    }
}

/// Queues what one notice announces.
pub fn announce(state: &mut State, config: &Config, notice: Notice<'_>, now: i64)
    requires
        old(state).wf(),
    ensures
        final(state).wf(),
        final(state)@ == announce_spec(old(state)@, config@, notice.about()@, notice.kind(), now),
{
    match notice {
        Notice::Uploaded(v) => {
            let subs = config.targets_for_youtube(v.channel.as_str());
            queue_for_targets(state, &subs, "video", v.url().as_str(), &None);
        },
        Notice::Scheduled { video, at } => {
            let subs = config.targets_for_youtube(video.channel.as_str());
            let url = video.url();
            let mut t: Vec<char> = Vec::new();
            append_str(&mut t, "📅 直播預定 <t:");
            append_chars(&mut t, &signed_decimal(at));
            append_str(&mut t, ":F>（<t:");
            append_chars(&mut t, &signed_decimal(at));
            append_str(&mut t, ":R>）\n");
            append_str(&mut t, url.as_str());
            let text = string_of(t.as_slice());
            let event = Some(EventCreation { video: video.id.clone(), title: video.title.clone(), at });
            queue_for_targets(state, &subs, "scheduled", text.as_str(), &event);
        },
        Notice::Rescheduled { at, event_id, .. } => {
            if at > now {
                push_event_update_for(state, event_id, EventAction::Reschedule(at));
            }
        },
        Notice::Started { video, event_id } => {
            push_event_update_for(state, event_id, EventAction::Start);
            let subs = config.targets_for_youtube(video.channel.as_str());
            queue_for_targets(state, &subs, "live", video.url().as_str(), &None);
        },
        Notice::Ended { video, started, ended, event_id } => {
            push_event_update_for(state, event_id, EventAction::Complete);
            let duration: u64 = if ended > started { ((ended as i128) - (started as i128)) as u64 } else { 0 };
            let url = video.url();
            let mut t: Vec<char> = Vec::new();
            append_str(&mut t, "📺 直播結束 ｜ 🕑 ");
            append_chars(&mut t, &hms_chars(duration));
            append_str(&mut t, " ｜ 👀 ");
            append_chars(&mut t, &chars_of_count(video.views));
            append_str(&mut t, " ｜ ❤️ ");
            append_chars(&mut t, &chars_of_count(video.likes));
            append_str(&mut t, "\n");
            append_str(&mut t, url.as_str());
            let text = string_of(t.as_slice());
            let subs = config.targets_for_youtube(video.channel.as_str());
            queue_for_targets(state, &subs, "end", text.as_str(), &None);
        },
    }
}

fn chars_of_count(n: Option<u64>) -> (r: Vec<char>)
    ensures
        r@ == count_of(n),
{
    match n {
        Some(x) => decimal(x),
        None => {
            let mut v: Vec<char> = Vec::new();
            append_str(&mut v, "?");
            v
        },
    }
}

/// What listing one channel's latest uploads gave: its video IDs, newest first, or nothing when the
/// request failed.
pub struct Listing {
    pub channel: String,
    pub ids: Option<Vec<String>>,
}

pub struct ListingView {
    pub channel: Seq<char>,
    pub ids: Option<Seq<Seq<char>>>,
}

impl View for Listing {
    type V = ListingView;

    open spec fn view(&self) -> ListingView {
        ListingView {
            channel: self.channel@,
            ids: match self.ids {
                Some(v) => Some(strings_view(v@)),
                None => None,
            },
        }
    }
}

/// The work of one YouTube round, between its network calls.
pub struct RoundPlan {
    /// Video IDs to look up, in order, without duplicates.
    pub candidates: Vec<String>,
    /// Channels listed for the first time: their seen key and the IDs listed, newest first.
    pub baselines: Vec<(String, Vec<String>)>,
    /// The seen keys that existed when the round started.
    pub initialized: Vec<String>,
    /// The IDs whose details were fetched so far.
    pub fetched: Vec<String>,
}

pub struct RoundPlanView {
    pub candidates: Seq<Seq<char>>,
    pub baselines: Seq<(Seq<char>, Seq<Seq<char>>)>,
    pub initialized: Seq<Seq<char>>,
    pub fetched: Seq<Seq<char>>,
}

impl View for RoundPlan {
    type V = RoundPlanView;

    open spec fn view(&self) -> RoundPlanView {
        RoundPlanView {
            candidates: strings_view(self.candidates@),
            baselines: self.baselines@.map_values(|b: (String, Vec<String>)| (b.0@, strings_view(b.1@))),
            initialized: strings_view(self.initialized@),
            fetched: strings_view(self.fetched@),
        }
    }
}

/// `q` with every element after its first occurrence dropped.
pub open spec fn dedup(q: Seq<Seq<char>>) -> Seq<Seq<char>>
    decreases q.len(),
{
    if q.len() == 0 {
        Seq::empty()
    } else if dedup(q.drop_last()).contains(q.last()) {
        dedup(q.drop_last())
    } else {
        dedup(q.drop_last()).push(q.last())
    }
}

/// The IDs of `q`, in order, that are not remembered under `key`.
pub open spec fn unseen(s: StateView, key: Seq<char>, q: Seq<Seq<char>>) -> Seq<Seq<char>>
    decreases q.len(),
{
    if q.len() == 0 {
        Seq::empty()
    } else if s.is_seen(key, q.last()) {
        unseen(s, key, q.drop_last())
    } else {
        unseen(s, key, q.drop_last()).push(q.last())
    }
}

/// A listing's IDs not yet remembered, oldest first.
pub open spec fn listing_fresh(s: StateView, l: ListingView) -> Seq<Seq<char>> {
    match l.ids {
        Some(ids) => unseen(s, seen_key_of(l.channel), ids.reverse()),
        None => Seq::empty(),
    }
}

pub open spec fn all_fresh(s: StateView, ls: Seq<ListingView>) -> Seq<Seq<char>>
    decreases ls.len(),
{
    if ls.len() == 0 {
        Seq::empty()
    } else {
        all_fresh(s, ls.drop_last()) + listing_fresh(s, ls.last())
    }
}

/// The successful listings of channels that have no seen key yet, as (key, IDs).
pub open spec fn baselines_of(s: StateView, ls: Seq<ListingView>) -> Seq<(Seq<char>, Seq<Seq<char>>)>
    decreases ls.len(),
{
    if ls.len() == 0 {
        Seq::empty()
    } else {
        let l = ls.last();
        match l.ids {
            Some(ids) => if !s.seen.contains_key(seen_key_of(l.channel)) {
                baselines_of(s, ls.drop_last()).push((seen_key_of(l.channel), ids))
            } else {
                baselines_of(s, ls.drop_last())
            },
            None => baselines_of(s, ls.drop_last()),
        }
    }
}

pub open spec fn listings_view(ls: Seq<Listing>) -> Seq<ListingView> {
    ls.map_values(|l: Listing| l@)
}

fn clone_strings(v: &Vec<String>) -> (r: Vec<String>)
    ensures
        strings_view(r@) == strings_view(v@),
{
    let mut r: Vec<String> = Vec::new();
    let mut i: usize = 0;
    while i < v.len()
        invariant
            i <= v@.len(),
            strings_view(r@) == strings_view(v@).take(i as int),
        decreases v@.len() - i,
    {
        let c = v[i].clone();
        assert(c@ == v@[i as int]@);
        let ghost old_r = r@;
        r.push(c);
        assert(strings_view(r@) =~= strings_view(old_r).push(c@));
        assert(strings_view(r@) =~= strings_view(v@).take(i as int + 1));
        i = i + 1;
    }
    assert(strings_view(v@).take(i as int) =~= strings_view(v@));
    r
}

fn dedup_strings(v: &Vec<String>) -> (r: Vec<String>)
    ensures
        strings_view(r@) == dedup(strings_view(v@)),
{
    let ghost q = strings_view(v@);
    let mut r: Vec<String> = Vec::new();
    let mut i: usize = 0;
    assert(q.take(0) =~= Seq::<Seq<char>>::empty());
    while i < v.len()
        invariant
            i <= v@.len(),
            q == strings_view(v@),
            strings_view(r@) == dedup(q.take(i as int)),
        decreases v@.len() - i,
    {
        assert(q.take(i as int + 1).drop_last() =~= q.take(i as int));
        assert(q.take(i as int + 1).last() == v@[i as int]@);
        if !strings_contain(&r, v[i].as_str()) {
            r.push(v[i].clone());
            assert(strings_view(r@) =~= dedup(q.take(i as int)).push(v@[i as int]@));
        }
        i = i + 1;
    }
    assert(q.take(i as int) =~= q);
    r
}

/// Plans a YouTube round from the listings of every configured channel: tracked streams are
/// re-checked first, then each listing's IDs not yet remembered, oldest first, each ID once;
/// channels listed for the first time are set aside as baselines.
pub fn plan_youtube_round(state: &State, listings: &Vec<Listing>) -> (plan: RoundPlan)
    requires
        state.wf(),
    ensures
        forall|k: Seq<char>| plan@.initialized.contains(k) <==> state@.seen.contains_key(k),
        plan@.baselines == baselines_of(state@, listings_view(listings@)),
        plan@.fetched == Seq::<Seq<char>>::empty(),
        exists|l: Seq<Seq<char>>| {
            &&& l.no_duplicates()
            &&& forall|k: Seq<char>| l.contains(k) <==> state@.lives.contains_key(k)
            &&& plan@.candidates == dedup(l + all_fresh(state@, listings_view(listings@)))
        },
{
    let ghost s = state@;
    let ghost lv = listings_view(listings@);
    let mut all = state.live_ids();
    let ghost l = strings_view(all@);
    let mut baselines: Vec<(String, Vec<String>)> = Vec::new();
    let mut i: usize = 0;
    assert(lv.take(0) =~= Seq::<ListingView>::empty());
    assert(l + Seq::<Seq<char>>::empty() =~= l);
    while i < listings.len()
        invariant
            i <= listings@.len(),
            state.wf(),
            s == state@,
            lv == listings_view(listings@),
            strings_view(all@) == l + all_fresh(s, lv.take(i as int)),
            baselines@.map_values(|b: (String, Vec<String>)| (b.0@, strings_view(b.1@))) == baselines_of(s, lv.take(i as int)),
        decreases listings@.len() - i,
    {
        let li = &listings[i];
        assert(lv.take(i as int + 1).drop_last() =~= lv.take(i as int));
        assert(lv.take(i as int + 1).last() == li@);
        match &li.ids {
            Some(ids) => {
                let key = seen_key(li.channel.as_str());
                let ghost before_b = baselines@.map_values(|b: (String, Vec<String>)| (b.0@, strings_view(b.1@)));
                if !state.has_seen_key(key.as_str()) {
                    baselines.push((key.clone(), clone_strings(ids)));
                    assert(baselines@.map_values(|b: (String, Vec<String>)| (b.0@, strings_view(b.1@))) =~= before_b.push((key@, strings_view(ids@))));
                }
                let ghost before = strings_view(all@);
                let ghost rev = strings_view(ids@).reverse();
                let mut j: usize = ids.len();
                assert(rev.take(0) =~= Seq::<Seq<char>>::empty());
                assert(before + Seq::<Seq<char>>::empty() =~= before);
                while j > 0
                    invariant
                        j <= ids@.len(),
                        state.wf(),
                        s == state@,
                        rev == strings_view(ids@).reverse(),
                        key@ == seen_key_of(li.channel@),
                        strings_view(all@) == before + unseen(s, key@, rev.take(ids@.len() - j as int)),
                    decreases j,
                {
                    let ghost n: int = ids@.len() - j;
                    assert(rev.take(n + 1).drop_last() =~= rev.take(n));
                    assert(rev.take(n + 1).last() == ids@[j - 1]@);
                    assert(rev[n] == strings_view(ids@)[j - 1]);
                    if !state.is_seen(key.as_str(), ids[j - 1].as_str()) {
                        let c = ids[j - 1].clone();
                        let ghost old_all = all@;
                        all.push(c);
                        assert(strings_view(all@) =~= strings_view(old_all).push(c@));
                        assert(strings_view(all@) =~= before + unseen(s, key@, rev.take(n)).push(ids@[j - 1]@));
                    }
                    j = j - 1;
                }
                assert(rev.take(ids@.len() as int) =~= rev);
                assert(strings_view(all@) =~= l + all_fresh(s, lv.take(i as int + 1)));
            },
            None => {
                assert(all_fresh(s, lv.take(i as int + 1)) =~= all_fresh(s, lv.take(i as int)));
            },
        }
        i = i + 1;
    }
    assert(lv.take(i as int) =~= lv);
    let candidates = dedup_strings(&all);
    let initialized = state.seen_keys();
    let plan = RoundPlan { candidates, baselines, initialized, fetched: Vec::new() };
    assert(plan@.fetched =~= Seq::<Seq<char>>::empty());
    plan
}

/// Announces, in order, each notice of `ns` about `v`.
pub open spec fn announce_all(s: StateView, c: ConfigView, v: VideoView, ns: Seq<NoticeKind>, now: i64) -> StateView
    decreases ns.len(),
{
    if ns.len() == 0 {
        s
    } else {
        announce_spec(announce_all(s, c, v, ns.drop_last(), now), c, v, ns.last(), now)
    }
}

/// One looked-up video: observed and announced when its channel had a baseline when the round
/// started, otherwise only recorded as part of the channel's first snapshot.
pub open spec fn video_step(s: StateView, c: ConfigView, initialized: Seq<Seq<char>>, v: VideoView, now: i64) -> StateView {
    let (s1, ns) = observe_spec(s, v, now);
    if initialized.contains(seen_key_of(v.channel)) {
        announce_all(s1, c, v, ns, now)
    } else {
        s1
    }
}

pub open spec fn videos_fold(s: StateView, c: ConfigView, initialized: Seq<Seq<char>>, vs: Seq<VideoView>, now: i64) -> StateView
    decreases vs.len(),
{
    if vs.len() == 0 {
        s
    } else {
        video_step(videos_fold(s, c, initialized, vs.drop_last(), now), c, initialized, vs.last(), now)
    }
}

pub open spec fn videos_view(vs: Seq<Video>) -> Seq<VideoView> {
    vs.map_values(|v: Video| v@)
}

fn append_strings(a: &mut Vec<String>, b: &Vec<String>)
    ensures
        strings_view(final(a)@) == strings_view(old(a)@) + strings_view(b@),
{
    let ghost a0 = strings_view(a@);
    let mut i: usize = 0;
    while i < b.len()
        invariant
            i <= b@.len(),
            strings_view(a@) == a0 + strings_view(b@).take(i as int),
        decreases b@.len() - i,
    {
        let c = b[i].clone();
        let ghost old_a = a@;
        a.push(c);
        assert(strings_view(a@) =~= strings_view(old_a).push(c@));
        assert(strings_view(a@) =~= a0 + strings_view(b@).take(i as int + 1));
        i = i + 1;
    }
    assert(strings_view(b@).take(i as int) =~= strings_view(b@));
}

/// Handles the details of one batch of candidates: `requested` are the IDs that were asked for,
/// `videos` what came back (deleted or private videos are simply missing).
pub fn observe_videos(state: &mut State, config: &Config, plan: &mut RoundPlan, requested: &Vec<String>, videos: &Vec<Video>, now: i64)
    requires
        old(state).wf(),
    ensures
        final(state).wf(),
        final(state)@ == videos_fold(old(state)@, config@, old(plan)@.initialized, videos_view(videos@), now),
        final(plan)@ == (RoundPlanView { fetched: old(plan)@.fetched + strings_view(requested@), ..old(plan)@ }),
{
    append_strings(&mut plan.fetched, requested);
    assert(plan@.baselines == old(plan)@.baselines);
    let ghost s0 = state@;
    let ghost vv = videos_view(videos@);
    let mut i: usize = 0;
    assert(vv.take(0) =~= Seq::<VideoView>::empty());
    while i < videos.len()
        invariant
            i <= videos@.len(),
            state.wf(),
            vv == videos_view(videos@),
            plan@.initialized == old(plan)@.initialized,
            state@ == videos_fold(s0, config@, plan@.initialized, vv.take(i as int), now),
        decreases videos@.len() - i,
    {
        let v = &videos[i];
        assert(vv.take(i as int + 1).drop_last() =~= vv.take(i as int));
        assert(vv.take(i as int + 1).last() == v@);
        let key = seen_key(v.channel.as_str());
        let ready = strings_contain(&plan.initialized, key.as_str());
        let ghost mid = state@;
        let notices = observe(state, v, now);
        if ready {
            let ghost s1 = state@;
            let ghost ns = notice_kinds(notices@);
            let mut k: usize = 0;
            assert(ns.take(0) =~= Seq::<NoticeKind>::empty());
            while k < notices.len()
                invariant
                    k <= notices@.len(),
                    state.wf(),
                    ns == notice_kinds(notices@),
                    forall|m: int| 0 <= m < notices@.len() ==> notices@[m].about() == *v,
                    state@ == announce_all(s1, config@, v@, ns.take(k as int), now),
                decreases notices@.len() - k,
            {
                assert(ns.take(k as int + 1).drop_last() =~= ns.take(k as int));
                assert(ns.take(k as int + 1).last() == notices@[k as int].kind());
                announce(state, config, notices[k], now);
                k = k + 1;
            }
            assert(ns.take(k as int) =~= ns);
        }
        i = i + 1;
    }
    assert(vv.take(i as int) =~= vv);
}

/// A channel's first snapshot is silent: looking up videos of channels that had no seen key when
/// the round started queues no notice and no event update.
pub proof fn law_first_snapshot_is_silent(s: StateView, c: ConfigView, initialized: Seq<Seq<char>>, vs: Seq<VideoView>, now: i64)
    requires
        forall|k: int| 0 <= k < vs.len() ==> !initialized.contains(seen_key_of(#[trigger] vs[k].channel)),
    ensures
        videos_fold(s, c, initialized, vs, now).pending == s.pending,
        videos_fold(s, c, initialized, vs, now).event_updates == s.event_updates,
    decreases vs.len(),
{
    if vs.len() > 0 {
        let rest = vs.drop_last();
        assert forall|k: int| 0 <= k < rest.len() implies !initialized.contains(seen_key_of(#[trigger] rest[k].channel)) by {
            assert(rest[k] == vs[k]);
        }
        law_first_snapshot_is_silent(s, c, initialized, rest, now);
        assert(!initialized.contains(seen_key_of(vs[vs.len() - 1].channel)));
    }
}

/// Remembers `ids` under `key`, last to first.
pub open spec fn mark_reversed(s: StateView, key: Seq<char>, ids: Seq<Seq<char>>) -> StateView
    decreases ids.len(),
{
    if ids.len() == 0 {
        s
    } else {
        let t = mark_reversed(s, key, ids.drop_first());
        with_seen(t, t.seen.insert(key, marked(t.seen_list(key), ids[0])))
    }
}

/// One baseline at the end of a round: when every listed ID was fetched, the channel's key is
/// created and the IDs are remembered oldest first; otherwise the key is dropped so that the whole
/// first snapshot is retried.
pub open spec fn baseline_step(s: StateView, b: (Seq<char>, Seq<Seq<char>>), fetched: Seq<Seq<char>>) -> StateView {
    if forall|k: int| 0 <= k < b.1.len() ==> fetched.contains(#[trigger] b.1[k]) {
        mark_reversed(with_seen(s, s.seen.insert(b.0, s.seen_list(b.0))), b.0, b.1)
    } else {
        with_seen(s, s.seen.remove(b.0))
    }
}

proof fn lemma_mark_reversed_keeps(t: StateView, key: Seq<char>, ids: Seq<Seq<char>>)
    requires
        t.seen_list(key).len() + ids.len() <= KEEP,
    ensures
        mark_reversed(t, key, ids).seen.contains_key(key) || ids.len() == 0,
        mark_reversed(t, key, ids).seen_list(key).len() <= t.seen_list(key).len() + ids.len(),
        forall|x: Seq<char>| #[trigger] t.seen_list(key).contains(x) ==> mark_reversed(t, key, ids).seen_list(key).contains(x),
        forall|k: int| 0 <= k < ids.len() ==> mark_reversed(t, key, ids).seen_list(key).contains(#[trigger] ids[k]),
    decreases ids.len(),
{
    if ids.len() > 0 {
        let rest = ids.drop_first();
        lemma_mark_reversed_keeps(t, key, rest);
        let u = mark_reversed(t, key, rest);
        let l = u.seen_list(key);
        law_marking_remembers_within_bound(l, ids[0]);
        if !l.contains(ids[0]) {
            assert forall|x: Seq<char>| l.contains(x) implies #[trigger] l.push(ids[0]).contains(x) by {
                let j = choose|j: int| 0 <= j < l.len() && l[j] == x;
                assert(l.push(ids[0])[j] == x);
            }
        }
        assert forall|k: int| 0 <= k < ids.len() implies mark_reversed(t, key, ids).seen_list(key).contains(#[trigger] ids[k]) by {
            if k > 0 {
                assert(ids[k] == rest[k - 1]);
            }
        }
    }
}

/// A first snapshot whose videos were all looked up becomes the channel's baseline: its key
/// exists afterwards and every listed ID is remembered, as long as the list fits within
/// [`KEEP`]. One that was only partly looked up leaves no key behind, so the whole snapshot is
/// taken again in the next round.
pub proof fn law_baseline_is_remembered_or_retried(s: StateView, b: (Seq<char>, Seq<Seq<char>>), fetched: Seq<Seq<char>>)
    ensures
        (forall|k: int| 0 <= k < b.1.len() ==> fetched.contains(#[trigger] b.1[k]))
            && s.seen_list(b.0).len() + b.1.len() <= KEEP ==> {
            &&& baseline_step(s, b, fetched).seen.contains_key(b.0)
            &&& forall|k: int| 0 <= k < b.1.len() ==> baseline_step(s, b, fetched).is_seen(b.0, #[trigger] b.1[k])
        },
        !(forall|k: int| 0 <= k < b.1.len() ==> fetched.contains(#[trigger] b.1[k])) ==> !baseline_step(s, b, fetched).seen.contains_key(b.0),
{
    if forall|k: int| 0 <= k < b.1.len() ==> fetched.contains(#[trigger] b.1[k]) {
        let t = with_seen(s, s.seen.insert(b.0, s.seen_list(b.0)));
        assert(t.seen_list(b.0) == s.seen_list(b.0));
        if s.seen_list(b.0).len() + b.1.len() <= KEEP {
            lemma_mark_reversed_keeps(t, b.0, b.1);
            if b.1.len() == 0 {
                assert(mark_reversed(t, b.0, b.1) == t);
            }
        }
    }
}

pub open spec fn baselines_fold(s: StateView, bs: Seq<(Seq<char>, Seq<Seq<char>>)>, fetched: Seq<Seq<char>>) -> StateView
    decreases bs.len(),
{
    if bs.len() == 0 {
        s
    } else {
        baseline_step(baselines_fold(s, bs.drop_last(), fetched), bs.last(), fetched)
    }
}

/// The state at the end of a YouTube round: baselines settled, stale lives pruned.
pub open spec fn finish_spec(s: StateView, p: RoundPlanView, now: i64) -> StateView {
    let t = baselines_fold(s, p.baselines, p.fetched);
    StateView { lives: pruned(t.lives, now), ..t }
}

fn all_fetched(ids: &Vec<String>, fetched: &Vec<String>) -> (r: bool)
    ensures
        r == forall|k: int| 0 <= k < strings_view(ids@).len() ==> strings_view(fetched@).contains(#[trigger] strings_view(ids@)[k]),
{
    let mut i: usize = 0;
    while i < ids.len()
        invariant
            i <= ids@.len(),
            forall|k: int| 0 <= k < i ==> strings_view(fetched@).contains(#[trigger] strings_view(ids@)[k]),
        decreases ids@.len() - i,
    {
        assert(strings_view(ids@)[i as int] == ids@[i as int]@);
        if !strings_contain(fetched, ids[i].as_str()) {
            return false;
        }
        i = i + 1;
    }
    true
}

/// Settles the round's baselines and prunes stale lives.
pub fn finish_youtube_round(state: &mut State, plan: &RoundPlan, now: i64)
    requires
        old(state).wf(),
    ensures
        final(state).wf(),
        final(state)@ == finish_spec(old(state)@, plan@, now),
{
    let ghost s0 = state@;
    let ghost bs = plan@.baselines;
    let mut i: usize = 0;
    assert(bs.take(0) =~= Seq::<(Seq<char>, Seq<Seq<char>>)>::empty());
    while i < plan.baselines.len()
        invariant
            i <= plan.baselines@.len(),
            state.wf(),
            bs == plan@.baselines,
            state@ == baselines_fold(s0, bs.take(i as int), plan@.fetched),
        decreases plan.baselines@.len() - i,
    {
        let key = &plan.baselines[i].0;
        let ids = &plan.baselines[i].1;
        assert(bs.take(i as int + 1).drop_last() =~= bs.take(i as int));
        assert(bs.take(i as int + 1).last() == (key@, strings_view(ids@)));
        if all_fetched(ids, &plan.fetched) {
            state.ensure_seen_key(key.as_str());
            let ghost t0 = state@;
            let ghost q = strings_view(ids@);
            let mut j: usize = ids.len();
            assert(q.skip(q.len() as int) =~= Seq::<Seq<char>>::empty());
            while j > 0
                invariant
                    j <= ids@.len(),
                    state.wf(),
                    q == strings_view(ids@),
                    state@ == mark_reversed(t0, key@, q.skip(j as int)),
                decreases j,
            {
                assert(q.skip(j as int - 1).drop_first() =~= q.skip(j as int));
                assert(q.skip(j as int - 1)[0] == ids@[j - 1]@);
                state.mark_seen(key.as_str(), ids[j - 1].as_str());
                j = j - 1;
            }
            assert(q.skip(0) =~= q);
        } else {
            state.remove_seen_key(key.as_str());
        }
        i = i + 1;
    }
    assert(bs.take(i as int) =~= bs);
    state.prune_lives(now);
}

/// A Discord event to create before a scheduled notice goes out.
pub struct EventRequest {
    pub title: String,
    pub start: i64,
    pub url: String,
}

pub struct EventRequestView {
    pub title: Seq<char>,
    pub start: i64,
    pub url: Seq<char>,
}

impl View for EventRequest {
    type V = EventRequestView;

    open spec fn view(&self) -> EventRequestView {
        EventRequestView { title: self.title@, start: self.start, url: self.url@ }
    }
}

/// The event a delivery should create first: one for a scheduled notice whose stream is still
/// tracked, has no event yet, has not started, and is scheduled in the future (at its latest known
/// time).
pub open spec fn event_request_spec(s: StateView, d: DeliveryView, now: i64) -> Option<EventRequestView> {
    match d.event {
        Some(ev) => if s.lives.contains_key(ev.video) {
            let live = s.lives[ev.video];
            let at = or_else(live.scheduled, ev.at);
            if live.event_id is None && live.started is None && at > now {
                Some(EventRequestView { title: ev.title, start: at, url: video_url_of(ev.video) })
            } else {
                None
            }
        } else {
            None
        },
        None => None,
    }
}

pub fn event_request(state: &State, delivery: &Delivery, now: i64) -> (r: Option<EventRequest>)
    requires
        state.wf(),
    ensures
        match r {
            Some(q) => event_request_spec(state@, delivery@, now) == Some(q@),
            None => event_request_spec(state@, delivery@, now) is None,
        },
{
    match &delivery.event {
        Some(ev) => match state.live(ev.video.as_str()) {
            Some(live) => {
                let at = match live.scheduled {
                    Some(t) => t,
                    None => ev.at,
                };
                if live.event_id.is_none() && live.started.is_none() && at > now {
                    let url = join2("https://www.youtube.com/watch?v=", ev.video.as_str());
                    Some(EventRequest { title: ev.title.clone(), start: at, url })
                } else {
                    None
                }
            },
            None => None,
        },
        None => None,
    }
}

/// Remembers the Discord event created for a tracked stream.
pub fn record_event(state: &mut State, video: &str, event_id: u64)
    requires
        old(state).wf(),
    ensures
        final(state).wf(),
        final(state)@ == (if old(state)@.lives.contains_key(video@) {
            StateView { lives: old(state)@.lives.insert(video@, Live { event_id: Some(event_id), ..old(state)@.lives[video@] }), ..old(state)@ }
        } else {
            old(state)@
        }),
{
    if let Some(live) = state.live(video) {
        state.insert_live(video, Live { event_id: Some(event_id), ..live });
    }
}

pub open spec fn stamp(at: i64) -> Seq<char> {
    "<t:"@ + signed_digits(at as int) + ":"@
}

/// The text actually sent for a delivery: a scheduled notice shows the stream's latest known
/// start, and links the Discord event once one exists.
pub open spec fn delivery_content_spec(s: StateView, d: DeliveryView, guild: u64) -> Seq<char> {
    match d.event {
        Some(ev) => if s.lives.contains_key(ev.video) {
            let live = s.lives[ev.video];
            let at = or_else(live.scheduled, ev.at);
            let c = replace_all(d.content, stamp(ev.at), stamp(at));
            match live.event_id {
                Some(id) => c + "\n"@ + event_link_of(guild, id),
                None => c,
            }
        } else {
            d.content
        },
        None => d.content,
    }
}

fn stamp_chars(at: i64) -> (r: Vec<char>)
    ensures
        r@ == stamp(at),
{
    let mut v: Vec<char> = Vec::new();
    append_str(&mut v, "<t:");
    append_chars(&mut v, &signed_decimal(at));
    append_str(&mut v, ":");
    v
}

pub fn delivery_content(state: &State, delivery: &Delivery, guild: u64) -> (r: String)
    requires
        state.wf(),
    ensures
        r@ == delivery_content_spec(state@, delivery@, guild),
{
    match &delivery.event {
        Some(ev) => match state.live(ev.video.as_str()) {
            Some(live) => {
                let at = match live.scheduled {
                    Some(t) => t,
                    None => ev.at,
                };
                let content = chars_of(delivery.content.as_str());
                let mut c = replace_chars(&content, &stamp_chars(ev.at), &stamp_chars(at));
                if let Some(id) = live.event_id {
                    append_str(&mut c, "\n");
                    append_str(&mut c, event_link(guild, id).as_str());
                }
                string_of(c.as_slice())
            },
            None => delivery.content.clone(),
        },
        None => delivery.content.clone(),
    }
}

/// A Discord call that an event update needs.
#[derive(Clone, Copy, Debug, PartialEq, Eq, Structural)]
pub enum EventCall {
    Reschedule { event: u64, at: i64 },
    SetStatus { event: u64, status: EventStatus },
}

/// The call an event update needs; none for a new start time that has already passed.
pub open spec fn event_call_spec(u: EventUpdate, now: i64) -> Option<EventCall> {
    match u.action {
        EventAction::Reschedule(at) => if at > now { Some(EventCall::Reschedule { event: u.event, at }) } else { None },
        EventAction::Start => Some(EventCall::SetStatus { event: u.event, status: EventStatus::Active }),
        EventAction::Complete => Some(EventCall::SetStatus { event: u.event, status: EventStatus::Completed }),
    }
}

pub fn event_call(u: EventUpdate, now: i64) -> (r: Option<EventCall>)
    ensures
        r == event_call_spec(u, now),
{
    match u.action {
        EventAction::Reschedule(at) => if at > now { Some(EventCall::Reschedule { event: u.event, at }) } else { None },
        EventAction::Start => Some(EventCall::SetStatus { event: u.event, status: EventStatus::Active }),
        EventAction::Complete => Some(EventCall::SetStatus { event: u.event, status: EventStatus::Completed }),
    }
}

pub open spec fn update_keys(us: Seq<EventUpdate>) -> Seq<u64> {
    us.map_values(|u: EventUpdate| u.event)
}

/// Each queued update turns into the Discord call its action asks for, on the same event: a start
/// makes the event active, an end makes it completed (a still-scheduled event passing through
/// active on the way), and a new start time is applied only while it lies ahead.
pub proof fn law_event_calls_follow_their_action(event: u64, at: i64, now: i64)
    ensures
        event_call_spec(EventUpdate { event, action: EventAction::Start }, now)
            == Some(EventCall::SetStatus { event, status: EventStatus::Active }),
        event_call_spec(EventUpdate { event, action: EventAction::Complete }, now)
            == Some(EventCall::SetStatus { event, status: EventStatus::Completed }),
        event_call_spec(EventUpdate { event, action: EventAction::Reschedule(at) }, now)
            == (if at > now { Some(EventCall::Reschedule { event, at }) } else { None }),
        next_status_spec(EventStatus::Scheduled, EventStatus::Completed) == Some(EventStatus::Active),
        next_status_spec(EventStatus::Active, EventStatus::Completed) == Some(EventStatus::Completed),
        next_status_spec(EventStatus::Completed, EventStatus::Completed) is None,
{
}

pub open spec fn delivery_keys(ds: Seq<DeliveryView>) -> Seq<u64> {
    ds.map_values(|d: DeliveryView| d.channel)
}

/// A pass over a queue in which a failure blocks the rest of its key (event or channel) for this
/// pass: `index` is the first item not yet passed, and the blocked keys are exactly the keys of
/// the items passed over.
pub struct Cursor {
    index: usize,
    blocked: Vec<u64>,
}

impl Cursor {
    pub closed spec fn position(&self) -> int {
        self.index as int
    }

    pub closed spec fn blocked(&self) -> Seq<u64> {
        self.blocked@
    }

    /// The cursor describes a pass over a queue with these keys.
    pub closed spec fn fits(&self, keys: Seq<u64>) -> bool {
        &&& self.index <= keys.len()
        &&& forall|j: int| 0 <= j < self.index ==> self.blocked@.contains(#[trigger] keys[j])
        &&& forall|b: u64| self.blocked@.contains(b) ==> exists|j: int| 0 <= j < self.index && keys[j] == b
    }

    /// A cursor at the start of a pass.
    pub fn new() -> (c: Cursor)
        ensures
            c.position() == 0,
            c.blocked() == Seq::<u64>::empty(),
            forall|keys: Seq<u64>| c.fits(keys),
    {
        Cursor { index: 0, blocked: Vec::new() }
    }

    fn is_blocked(&self, key: u64) -> (r: bool)
        ensures
            r == self.blocked@.contains(key),
    {
        let mut i: usize = 0;
        while i < self.blocked.len()
            invariant
                i <= self.blocked@.len(),
                forall|k: int| 0 <= k < i ==> self.blocked@[k] != key,
            decreases self.blocked@.len() - i,
        {
            if self.blocked[i] == key {
                return true;
            }
            i = i + 1;
        }
        false
    }

    /// Moves past items whose key is blocked and returns the position of the next one to try,
    /// which is the first item of its key still in the queue.
    fn advance(&mut self, keys: &Vec<u64>) -> (r: Option<usize>)
        requires
            old(self).fits(keys@),
        ensures
            final(self).fits(keys@),
            final(self).blocked() == old(self).blocked(),
            final(self).position() >= old(self).position(),
            forall|j: int| old(self).position() <= j < final(self).position() ==> old(self).blocked().contains(#[trigger] keys@[j]),
            match r {
                Some(i) => i == final(self).position() && i < keys@.len() && !final(self).blocked().contains(keys@[i as int])
                    && forall|j: int| 0 <= j < i ==> #[trigger] keys@[j] != keys@[i as int],
                None => final(self).position() == keys@.len(),
            },
    {
        while self.index < keys.len() && self.is_blocked(keys[self.index])
            invariant
                self.fits(keys@),
                self.blocked@ == old(self).blocked@,
                self.index >= old(self).index,
                forall|j: int| old(self).index <= j < self.index ==> old(self).blocked@.contains(#[trigger] keys@[j]),
            decreases keys@.len() - self.index,
        {
            self.index = self.index + 1;
        }
        if self.index < keys.len() {
            let i = self.index;
            assert forall|j: int| 0 <= j < i implies #[trigger] keys@[j] != keys@[i as int] by {
                assert(self.blocked@.contains(keys@[j]));
            }
            Some(i)
        } else {
            None
        }
    }

    /// The item at the cursor stays queued and its key is blocked for the rest of the pass.
    fn keep(&mut self, key: u64, Ghost(keys): Ghost<Seq<u64>>)
        requires
            old(self).fits(keys),
            old(self).position() < keys.len(),
            key == keys[old(self).position()],
            keys.len() <= usize::MAX,
        ensures
            final(self).fits(keys),
            final(self).position() == old(self).position() + 1,
            final(self).blocked() == old(self).blocked().push(keys[old(self).position()]),
    {
        let ghost k = keys[self.index as int];
        self.blocked.push(key);
        self.index = self.index + 1;
        assert forall|b: u64| self.blocked@.contains(b) implies exists|j: int| 0 <= j < self.index && keys[j] == b by {
            if b == k {
                assert(keys[self.index - 1] == b);
            } else {
                assert(old(self).blocked@.contains(b));
            }
        }
        assert forall|j: int| 0 <= j < self.index implies self.blocked@.contains(#[trigger] keys[j]) by {
            if j < self.index - 1 {
                assert(old(self).blocked@.contains(keys[j]));
                let m = choose|m: int| 0 <= m < old(self).blocked@.len() && old(self).blocked@[m] == keys[j];
                assert(self.blocked@[m] == keys[j]);
            } else {
                assert(self.blocked@[self.blocked@.len() - 1] == keys[j]);
            }
        }
    }

    /// The item at the cursor left the queue: the cursor stays put, now before the next item.
    proof fn lemma_removed(&self, keys: Seq<u64>)
        requires
            self.fits(keys),
            self.position() < keys.len(),
            !self.blocked().contains(keys[self.position()]),
        ensures
            self.fits(keys.remove(self.position())),
    {
        let r = keys.remove(self.index as int);
        assert forall|j: int| 0 <= j < self.index implies self.blocked@.contains(#[trigger] r[j]) by {
            assert(r[j] == keys[j]);
        }
        assert forall|b: u64| self.blocked@.contains(b) implies exists|j: int| 0 <= j < self.index && r[j] == b by {
            let j = choose|j: int| 0 <= j < self.index && keys[j] == b;
            assert(r[j] == b);
        }
    }

    /// The next event update to perform, if any is left in this pass; it is the earliest queued
    /// update of its event.
    pub fn next_event_update(&mut self, state: &State) -> (r: Option<EventUpdate>)
        requires
            state.wf(),
            old(self).fits(update_keys(state@.event_updates)),
        ensures
            final(self).fits(update_keys(state@.event_updates)),
            final(self).blocked() == old(self).blocked(),
            match r {
                Some(u) => {
                    let i = final(self).position();
                    &&& 0 <= i < state@.event_updates.len()
                    &&& u == state@.event_updates[i]
                    &&& !final(self).blocked().contains(u.event)
                    &&& forall|j: int| 0 <= j < i ==> (#[trigger] state@.event_updates[j]).event != u.event
                },
                None => final(self).position() == state@.event_updates.len(),
            },
    {
        let us = state.event_updates();
        let mut keys: Vec<u64> = Vec::new();
        let mut i: usize = 0;
        while i < us.len()
            invariant
                i <= us@.len(),
                us@ == state@.event_updates,
                keys@ == update_keys(us@).take(i as int),
            decreases us@.len() - i,
        {
            keys.push(us[i].event);
            assert(keys@ =~= update_keys(us@).take(i as int + 1));
            i = i + 1;
        }
        assert(keys@ =~= update_keys(us@));
        match self.advance(&keys) {
            Some(i) => {
                assert forall|j: int| 0 <= j < i implies (#[trigger] state@.event_updates[j]).event != us@[i as int].event by {
                    assert(keys@[j] == state@.event_updates[j].event);
                }
                Some(us[i])
            },
            None => None,
        }
    }

    /// Settles the update returned by [`Cursor::next_event_update`]: it leaves the queue unless
    /// it failed in a way worth retrying, in which case it stays and its event is blocked for the
    /// rest of the pass.
    pub fn event_update_done(&mut self, state: &mut State, failure: Option<Failure>)
        requires
            old(state).wf(),
            old(self).fits(update_keys(old(state)@.event_updates)),
            0 <= old(self).position() < old(state)@.event_updates.len(),
            !old(self).blocked().contains(old(state)@.event_updates[old(self).position()].event),
        ensures
            final(state).wf(),
            final(self).fits(update_keys(final(state)@.event_updates)),
            match failure {
                Some(f) if retryable_spec(f) => final(state)@ == old(state)@
                    && final(self).position() == old(self).position() + 1
                    && final(self).blocked() == old(self).blocked().push(old(state)@.event_updates[old(self).position()].event),
                _ => final(state)@ == (StateView {
                    event_updates: old(state)@.event_updates.remove(old(self).position()),
                    ..old(state)@
                }) && final(self).position() == old(self).position() && final(self).blocked() == old(self).blocked(),
            },
            update_settled(old(state)@.event_updates, final(state)@.event_updates, old(self).position(), failure),
    {
        let ghost keys = update_keys(state@.event_updates);
        proof {
            let q = state@.event_updates;
            let i = self.index as int;
            assert forall|j: int| 0 <= j < i implies (|u: EventUpdate| u.event)(#[trigger] q[j]) != (|u: EventUpdate| u.event)(q[i]) by {
                assert(keys[j] == q[j].event);
                assert(self.blocked@.contains(keys[j]));
            }
        }
        let keep = match failure {
            Some(f) => retryable(f),
            None => false,
        };
        if keep {
            let key = state.event_updates()[self.index].event;
            let _n = state.event_updates().len();
            self.keep(key, Ghost(keys));
        } else {
            proof {
                self.lemma_removed(keys);
                assert(update_keys(state@.event_updates.remove(self.index as int)) =~= keys.remove(self.index as int));
            }
            state.remove_event_update(self.index);
        }
    }

    /// The next delivery to send, if any is left in this pass; it is the earliest queued delivery
    /// for its channel, so each channel receives its notices in order.
    pub fn next_delivery(&mut self, state: &State) -> (r: Option<Delivery>)
        requires
            state.wf(),
            old(self).fits(delivery_keys(state@.pending)),
        ensures
            final(self).fits(delivery_keys(state@.pending)),
            final(self).blocked() == old(self).blocked(),
            match r {
                Some(d) => {
                    let i = final(self).position();
                    &&& 0 <= i < state@.pending.len()
                    &&& d@ == state@.pending[i]
                    &&& !final(self).blocked().contains(d.channel)
                    &&& forall|j: int| 0 <= j < i ==> (#[trigger] state@.pending[j]).channel != d.channel
                },
                None => final(self).position() == state@.pending.len(),
            },
    {
        let ds = state.pending();
        let mut keys: Vec<u64> = Vec::new();
        let mut i: usize = 0;
        while i < ds.len()
            invariant
                i <= ds@.len(),
                ds@.map_values(|d: Delivery| d@) == state@.pending,
                keys@ == delivery_keys(state@.pending).take(i as int),
            decreases ds@.len() - i,
        {
            assert(state@.pending[i as int] == ds@[i as int]@);
            keys.push(ds[i].channel);
            assert(keys@ =~= delivery_keys(state@.pending).take(i as int + 1));
            i = i + 1;
        }
        assert(keys@ =~= delivery_keys(state@.pending));
        match self.advance(&keys) {
            Some(i) => {
                assert(state@.pending[i as int] == ds@[i as int]@);
                assert forall|j: int| 0 <= j < i implies (#[trigger] state@.pending[j]).channel != ds@[i as int].channel by {
                    assert(keys@[j] == state@.pending[j].channel);
                }
                Some(ds[i].duplicate())
            },
            None => None,
        }
    }

    /// The delivery at the cursor could not be prepared for a reason worth retrying: it stays
    /// queued and its channel is blocked for the rest of the pass.
    pub fn delivery_blocked(&mut self, state: &State)
        requires
            state.wf(),
            old(self).fits(delivery_keys(state@.pending)),
            0 <= old(self).position() < state@.pending.len(),
        ensures
            final(self).fits(delivery_keys(state@.pending)),
            final(self).position() == old(self).position() + 1,
            final(self).blocked() == old(self).blocked().push(state@.pending[old(self).position()].channel),
    {
        let key = state.pending()[self.index].channel;
        let _n = state.pending().len();
        assert(state@.pending[self.index as int].channel == key);
        self.keep(key, Ghost(delivery_keys(state@.pending)));
    }

    /// Creating the event of the delivery at the cursor failed. A failure worth retrying keeps
    /// the delivery queued and blocks its channel for the rest of the pass; any other failure
    /// (such as missing event permissions) must not hold the notice back, so it is sent without
    /// an event link and the cursor stays where it is.
    pub fn event_creation_failed(&mut self, state: &State, failure: Failure) -> (send: bool)
        requires
            state.wf(),
            old(self).fits(delivery_keys(state@.pending)),
            0 <= old(self).position() < state@.pending.len(),
        ensures
            send == !retryable_spec(failure),
            final(self).fits(delivery_keys(state@.pending)),
            send ==> final(self).position() == old(self).position() && final(self).blocked() == old(self).blocked(),
            !send ==> final(self).position() == old(self).position() + 1
                && final(self).blocked() == old(self).blocked().push(state@.pending[old(self).position()].channel),
    {
        if retryable(failure) {
            self.delivery_blocked(state);
            false
        } else {
            true
        }
    }

    /// Settles the delivery returned by [`Cursor::next_delivery`] after sending it: it leaves the
    /// queue once Discord accepted it, or when Discord refused it for good; a refusal that may be
    /// repaired keeps it queued and blocks its channel for the rest of the pass.
    pub fn delivery_done(&mut self, state: &mut State, failure: Option<Failure>)
        requires
            old(state).wf(),
            old(self).fits(delivery_keys(old(state)@.pending)),
            0 <= old(self).position() < old(state)@.pending.len(),
            !old(self).blocked().contains(old(state)@.pending[old(self).position()].channel),
        ensures
            final(state).wf(),
            final(self).fits(delivery_keys(final(state)@.pending)),
            match failure {
                Some(f) if f == Failure::Status(401) || f == Failure::Status(403) || retryable_spec(f) =>
                    final(state)@ == old(state)@
                    && final(self).position() == old(self).position() + 1
                    && final(self).blocked() == old(self).blocked().push(old(state)@.pending[old(self).position()].channel),
                _ => final(state)@ == (StateView {
                    pending: old(state)@.pending.remove(old(self).position()),
                    ..old(state)@
                }) && final(self).position() == old(self).position() && final(self).blocked() == old(self).blocked(),
            },
            delivery_settled(old(state)@.pending, final(state)@.pending, old(self).position(), failure),
    {
        let ghost keys = delivery_keys(state@.pending);
        proof {
            let q = state@.pending;
            let i = self.index as int;
            assert forall|j: int| 0 <= j < i implies (|d: DeliveryView| d.channel)(#[trigger] q[j]) != (|d: DeliveryView| d.channel)(q[i]) by {
                assert(keys[j] == q[j].channel);
                assert(self.blocked@.contains(keys[j]));
            }
        }
        let keep = match failure {
            Some(f) => retryable_message(f),
            None => false,
        };
        if keep {
            let key = state.pending()[self.index].channel;
            let _n = state.pending().len();
            assert(state@.pending[self.index as int].channel == key);
            self.keep(key, Ghost(keys));
        } else {
            proof {
                self.lemma_removed(keys);
                assert(delivery_keys(state@.pending.remove(self.index as int)) =~= keys.remove(self.index as int));
            }
            state.remove_pending(self.index);
        }
    }
}


/// `q` is `p` with some items removed: item `k` of `q` is item `idx[k]` of `p`, in order.
pub open spec fn subsequence_at<T>(p: Seq<T>, q: Seq<T>, idx: Seq<int>) -> bool {
    &&& idx.len() == q.len()
    &&& forall|k: int| 0 <= k < idx.len() ==> 0 <= #[trigger] idx[k] < p.len() && q[k] == p[idx[k]]
    &&& forall|a: int, b: int| 0 <= a < b < idx.len() ==> #[trigger] idx[a] < #[trigger] idx[b]
}

/// Item `j` of the original queue is still queued.
pub open spec fn kept_at(idx: Seq<int>, j: int) -> bool {
    exists|m: int| 0 <= m < idx.len() && idx[m] == j
}

/// Every item of `p` that comes after a kept item with the same key is kept too.
pub open spec fn keeps_key_order<T>(p: Seq<T>, idx: Seq<int>, key: spec_fn(T) -> u64) -> bool {
    forall|k: int, j: int|
        #![trigger idx[k], p[j]]
        0 <= k < idx.len() && idx[k] < j < p.len() && key(p[j]) == key(p[idx[k]]) ==> kept_at(idx, j)
}

/// Item `i` of `q` is the earliest queued item with its key.
pub open spec fn first_of_key<T>(q: Seq<T>, i: int, key: spec_fn(T) -> u64) -> bool {
    &&& 0 <= i < q.len()
    &&& forall|j: int| 0 <= j < i ==> key(#[trigger] q[j]) != key(q[i])
}

/// One settled item of a pass: the queue is unchanged, or item `i`, the earliest of its key,
/// left it.
pub open spec fn settled<T>(q: Seq<T>, q2: Seq<T>, i: int, key: spec_fn(T) -> u64) -> bool {
    q2 == q || (first_of_key(q, i, key) && q2 == q.remove(i))
}

/// At step `s` of a pass, item `x` left the queue.
pub open spec fn left_at<T>(qs: Seq<Seq<T>>, at: Seq<int>, s: int, x: T) -> bool {
    &&& 0 <= s < at.len()
    &&& 0 <= at[s] < qs[s].len()
    &&& qs[s + 1] == qs[s].remove(at[s])
    &&& qs[s][at[s]] == x
}

/// Item `x` left the queue at some step of the pass.
pub open spec fn left_in_pass<T>(qs: Seq<Seq<T>>, at: Seq<int>, x: T) -> bool {
    exists|s: int| left_at(qs, at, s, x)
}

proof fn lemma_pass<T>(qs: Seq<Seq<T>>, at: Seq<int>, key: spec_fn(T) -> u64) -> (idx: Seq<int>)
    requires
        qs.len() == at.len() + 1,
        forall|s: int| 0 <= s < at.len() ==> #[trigger] settled(qs[s], qs[s + 1], at[s], key),
    ensures
        subsequence_at(qs[0], qs.last(), idx),
        keeps_key_order(qs[0], idx, key),
        forall|j: int| 0 <= j < qs[0].len() && !kept_at(idx, j) ==> left_in_pass(qs, at, #[trigger] qs[0][j]),
    decreases at.len(),
{
    let p = qs[0];
    if at.len() == 0 {
        let idx = Seq::new(p.len(), |k: int| k);
        assert forall|j: int| 0 <= j < p.len() implies kept_at(idx, j) by {
            assert(idx[j] == j);
        }
        idx
    } else {
        let n = at.len();
        let pq = qs.take(n as int);
        let pa = at.take(n - 1);
        assert forall|s: int| 0 <= s < pa.len() implies #[trigger] settled(pq[s], pq[s + 1], pa[s], key) by {
            assert(settled(qs[s], qs[s + 1], at[s], key));
        }
        let idx0 = lemma_pass(pq, pa, key);
        assert(pq[0] == p);
        let q = qs[n - 1];
        assert(pq.last() == q);
        assert forall|s: int, x: T| left_at(pq, pa, s, x) implies left_at(qs, at, s, x) by {
            assert(pq[s] == qs[s] && pq[s + 1] == qs[s + 1] && pa[s] == at[s]);
        }
        let last = n - 1;
        assert(settled(qs[last], qs[last + 1], at[last], key));
        if qs[n as int] == q {
            assert(qs.last() == q);
            assert forall|j: int| 0 <= j < p.len() && !kept_at(idx0, j) implies left_in_pass(qs, at, #[trigger] p[j]) by {
                assert(pq[0][j] == p[j]);
                let s = choose|s: int| left_at(pq, pa, s, p[j]);
                assert(left_at(qs, at, s, p[j]));
            }
            idx0
        } else {
            let i = at[n - 1];
            let idx = idx0.remove(i);
            assert(qs.last() == q.remove(i));
            assert forall|k: int| 0 <= k < idx.len() implies 0 <= #[trigger] idx[k] < p.len() && q.remove(i)[k] == p[idx[k]] by {
                if k < i {
                    assert(idx[k] == idx0[k]);
                } else {
                    assert(idx[k] == idx0[k + 1]);
                }
            }
            assert forall|a: int, b: int| 0 <= a < b < idx.len() implies #[trigger] idx[a] < #[trigger] idx[b] by {
                let a0 = if a < i { a } else { a + 1 };
                let b0 = if b < i { b } else { b + 1 };
                assert(idx[a] == idx0[a0] && idx[b] == idx0[b0]);
                assert(idx0[a0] < idx0[b0]);
            }
            assert forall|k: int, j: int|
                #![trigger idx[k], p[j]]
                0 <= k < idx.len() && idx[k] < j < p.len() && key(p[j]) == key(p[idx[k]]) implies kept_at(idx, j) by {
                let k0 = if k < i { k } else { k + 1 };
                assert(idx[k] == idx0[k0]);
                assert(kept_at(idx0, j));
                let m = choose|m: int| 0 <= m < idx0.len() && idx0[m] == j;
                if m == i {
                    assert(idx0[k0] < idx0[i]);
                    if i <= k0 {
                        if i < k0 {
                            assert(idx0[i] < idx0[k0]);
                        }
                    }
                    assert(k0 < i);
                    assert(q[k0] == p[idx0[k0]]);
                    assert(q[i] == p[idx0[i]]);
                    assert(key(q[k0]) != key(q[i]));
                } else if m < i {
                    assert(idx[m] == j);
                } else {
                    assert(idx[m - 1] == j);
                }
            }
            assert forall|j: int| 0 <= j < p.len() && !kept_at(idx, j) implies left_in_pass(qs, at, #[trigger] p[j]) by {
                if kept_at(idx0, j) {
                    let m = choose|m: int| 0 <= m < idx0.len() && idx0[m] == j;
                    if m < i {
                        assert(idx[m] == j);
                    } else if m > i {
                        assert(idx[m - 1] == j);
                    }
                    assert(m == i);
                    assert(q[i] == p[j]);
                    assert(left_at(qs, at, n - 1, p[j]));
                } else {
                    assert(pq[0][j] == p[j]);
                let s = choose|s: int| left_at(pq, pa, s, p[j]);
                    assert(left_at(qs, at, s, p[j]));
                }
            }
            idx
        }
    }
}

/// Whether a send that failed with `f` keeps its delivery queued (see [`Cursor::delivery_done`]).
pub open spec fn message_kept(f: Option<Failure>) -> bool {
    match f {
        Some(x) => x == Failure::Status(401) || x == Failure::Status(403) || retryable_spec(x),
        None => false,
    }
}

/// Delivery `x` left the queue at a step where Discord accepted it or refused it for good.
pub open spec fn left_for_good(qs: Seq<Seq<DeliveryView>>, at: Seq<int>, fs: Seq<Option<Failure>>, x: DeliveryView) -> bool {
    exists|s: int| left_at(qs, at, s, x) && !message_kept(fs[s])
}

/// Update `x` left the queue at a step where it was performed or failed for good.
pub open spec fn update_left_for_good(qs: Seq<Seq<EventUpdate>>, at: Seq<int>, fs: Seq<Option<Failure>>, x: EventUpdate) -> bool {
    exists|s: int| left_at(qs, at, s, x) && !(fs[s] matches Some(f) && retryable_spec(f))
}

/// One settled delivery, as [`Cursor::delivery_done`] ensures it of every send: the queue is
/// unchanged, or without the delivery at `i`, the earliest queued for its channel, sent with
/// outcome `f`. [`Cursor::delivery_blocked`] and [`Cursor::event_creation_failed`] leave the
/// queue as it is.
pub open spec fn delivery_settled(q: Seq<DeliveryView>, q2: Seq<DeliveryView>, i: int, f: Option<Failure>) -> bool {
    &&& settled(q, q2, i, |d: DeliveryView| d.channel)
    &&& q2 != q ==> !message_kept(f)
}

/// One settled event update, as [`Cursor::event_update_done`] ensures it of every update: the
/// queue is unchanged, or without the update at `i`, the earliest queued for its event,
/// performed with outcome `f`.
pub open spec fn update_settled(q: Seq<EventUpdate>, q2: Seq<EventUpdate>, i: int, f: Option<Failure>) -> bool {
    &&& settled(q, q2, i, |u: EventUpdate| u.event)
    &&& q2 != q ==> !(f matches Some(x) && retryable_spec(x))
}

/// A delivery pass only removes: the queues `qs[0]`, ..., `qs.last()` after each settled delivery
/// end in a subsequence of the first, in its order; a delivery leaves only on a step where
/// Discord accepted it or refused it for good; and a delivery that stays keeps every later
/// delivery to its channel queued, so each channel receives its notices in order.
pub proof fn law_delivery_pass_keeps_channel_order(qs: Seq<Seq<DeliveryView>>, at: Seq<int>, fs: Seq<Option<Failure>>)
    requires
        qs.len() == at.len() + 1,
        fs.len() == at.len(),
        forall|s: int| 0 <= s < at.len() ==> #[trigger] delivery_settled(qs[s], qs[s + 1], at[s], fs[s]),
    ensures
        exists|idx: Seq<int>| {
            &&& subsequence_at(qs[0], qs.last(), idx)
            &&& keeps_key_order(qs[0], idx, |d: DeliveryView| d.channel)
            &&& forall|j: int| 0 <= j < qs[0].len() && !kept_at(idx, j) ==> left_for_good(qs, at, fs, #[trigger] qs[0][j])
        },
{
    let key = |d: DeliveryView| d.channel;
    assert forall|s: int| 0 <= s < at.len() implies #[trigger] settled(qs[s], qs[s + 1], at[s], key) by {
        assert(delivery_settled(qs[s], qs[s + 1], at[s], fs[s]));
    }
    let idx = lemma_pass(qs, at, key);
    assert forall|j: int| 0 <= j < qs[0].len() && !kept_at(idx, j) implies left_for_good(qs, at, fs, #[trigger] qs[0][j]) by {
        let s = choose|s: int| left_at(qs, at, s, qs[0][j]);
        assert(delivery_settled(qs[s], qs[s + 1], at[s], fs[s]));
        assert(qs[s + 1].len() < qs[s].len());
        assert(left_at(qs, at, s, qs[0][j]) && !message_kept(fs[s]));
    }
    assert(keeps_key_order(qs[0], idx, |d: DeliveryView| d.channel));
}

/// An event-update pass only removes: the queue ends as a subsequence of the first, in its
/// order; an update leaves only on a step where it was performed or failed for good; and an
/// update that stays keeps every later update of its event queued.
pub proof fn law_update_pass_keeps_event_order(qs: Seq<Seq<EventUpdate>>, at: Seq<int>, fs: Seq<Option<Failure>>)
    requires
        qs.len() == at.len() + 1,
        fs.len() == at.len(),
        forall|s: int| 0 <= s < at.len() ==> #[trigger] update_settled(qs[s], qs[s + 1], at[s], fs[s]),
    ensures
        exists|idx: Seq<int>| {
            &&& subsequence_at(qs[0], qs.last(), idx)
            &&& keeps_key_order(qs[0], idx, |u: EventUpdate| u.event)
            &&& forall|j: int| 0 <= j < qs[0].len() && !kept_at(idx, j) ==> update_left_for_good(qs, at, fs, #[trigger] qs[0][j])
        },
{
    let key = |u: EventUpdate| u.event;
    assert forall|s: int| 0 <= s < at.len() implies #[trigger] settled(qs[s], qs[s + 1], at[s], key) by {
        assert(update_settled(qs[s], qs[s + 1], at[s], fs[s]));
    }
    let idx = lemma_pass(qs, at, key);
    assert forall|j: int| 0 <= j < qs[0].len() && !kept_at(idx, j) implies update_left_for_good(qs, at, fs, #[trigger] qs[0][j]) by {
        let s = choose|s: int| left_at(qs, at, s, qs[0][j]);
        assert(update_settled(qs[s], qs[s + 1], at[s], fs[s]));
        assert(qs[s + 1].len() < qs[s].len());
        assert(left_at(qs, at, s, qs[0][j]) && !(fs[s] matches Some(f) && retryable_spec(f)));
    }
    assert(keeps_key_order(qs[0], idx, |u: EventUpdate| u.event));
}

} // verus!
