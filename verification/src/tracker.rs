//! The YouTube state machine: given what the API says about a video right now, decide what to announce.
//! Pure over [`State`]; no network, no Discord. Every rule about "new", "already told", "rescheduled",
//! "started" and "ended" lives here.
use vstd::prelude::*;
use crate::state::{law_marking_remembers_within_bound, marked, Live, State, StateView};
use crate::text::join2;

verus! {

/// What the API says about a stream or premiere.
#[derive(Clone, Copy, Debug, Default, PartialEq, Eq, Structural)]
pub struct LiveDetails {
    pub scheduled: Option<i64>,
    pub started: Option<i64>,
    pub ended: Option<i64>,
}

#[derive(Clone, Debug, PartialEq, Eq)]
pub struct Video {
    pub id: String,
    pub channel: String,
    pub title: String,
    /// Present for streams and premieres, absent for plain uploads.
    pub live: Option<LiveDetails>,
    pub views: Option<u64>,
    pub likes: Option<u64>,
}

pub struct VideoView {
    pub id: Seq<char>,
    pub channel: Seq<char>,
    pub title: Seq<char>,
    pub live: Option<LiveDetails>,
    pub views: Option<u64>,
    pub likes: Option<u64>,
}

impl View for Video {
    type V = VideoView;

    open spec fn view(&self) -> VideoView {
        VideoView {
            id: self.id@,
            channel: self.channel@,
            title: self.title@,
            live: self.live,
            views: self.views,
            likes: self.likes,
        }
    }
}

/// One thing to announce about a video.
#[derive(Debug, Clone, Copy, PartialEq, Eq)]
pub enum Notice<'a> {
    Uploaded(&'a Video),
    /// A Discord event should be created; its id is then stored with the tracked live.
    Scheduled { video: &'a Video, at: i64 },
    Rescheduled { video: &'a Video, at: i64, event_id: Option<u64> },
    Started { video: &'a Video, event_id: Option<u64> },
    Ended { video: &'a Video, started: i64, ended: i64, event_id: Option<u64> },
}

/// A notice without the video it is about.
pub enum NoticeKind {
    Uploaded,
    Scheduled { at: i64 },
    Rescheduled { at: i64, event_id: Option<u64> },
    Started { event_id: Option<u64> },
    Ended { started: i64, ended: i64, event_id: Option<u64> },
}

impl<'a> Notice<'a> {
    pub open spec fn kind(self) -> NoticeKind {
        match self {
            Notice::Uploaded(_) => NoticeKind::Uploaded,
            Notice::Scheduled { at, .. } => NoticeKind::Scheduled { at },
            Notice::Rescheduled { at, event_id, .. } => NoticeKind::Rescheduled { at, event_id },
            Notice::Started { event_id, .. } => NoticeKind::Started { event_id },
            Notice::Ended { started, ended, event_id, .. } => NoticeKind::Ended { started, ended, event_id },
        }
    }

    pub open spec fn about(self) -> Video {
        match self {
            Notice::Uploaded(v) => *v,
            Notice::Scheduled { video, .. } => *video,
            Notice::Rescheduled { video, .. } => *video,
            Notice::Started { video, .. } => *video,
            Notice::Ended { video, .. } => *video,
        }
    }
}

pub open spec fn notice_kinds<'a>(ns: Seq<Notice<'a>>) -> Seq<NoticeKind> {
    ns.map_values(|n: Notice<'a>| n.kind())
}

pub open spec fn seen_key_of(channel: Seq<char>) -> Seq<char> {
    "youtube:"@ + channel
}

pub open spec fn video_url_of(id: Seq<char>) -> Seq<char> {
    "https://www.youtube.com/watch?v="@ + id
}

impl Video {
    /// Where the video is watched.
    pub fn url(&self) -> (r: String)
        ensures
            r@ == video_url_of(self.id@),
    {
        join2("https://www.youtube.com/watch?v=", self.id.as_str())
    }
}

/// The key under which a YouTube channel's video IDs are remembered.
pub fn seen_key(channel: &str) -> (r: String)
    ensures
        r@ == seen_key_of(channel@),
{
    join2("youtube:", channel)
}

pub open spec fn or_else(o: Option<i64>, d: i64) -> i64 {
    match o {
        Some(x) => x,
        None => d,
    }
}

pub open spec fn with_lives(s: StateView, lives: Map<Seq<char>, Live>) -> StateView {
    StateView { lives, ..s }
}

pub open spec fn with_seen(s: StateView, seen: Map<Seq<char>, Seq<Seq<char>>>) -> StateView {
    StateView { seen, ..s }
}

/// A tracked stream: announce a first schedule or a new schedule while it has not started,
/// its start once, and its end, after which it is no longer tracked.
pub open spec fn observe_tracked(s: StateView, id: Seq<char>, live: Live, d: LiveDetails) -> (StateView, Seq<NoticeKind>) {
    let resched = live.started is None && d.started is None && d.ended is None && d.scheduled is Some
        && live.scheduled != d.scheduled;
    let n1: Seq<NoticeKind> = if !resched {
        Seq::empty()
    } else if live.scheduled is None {
        seq![NoticeKind::Scheduled { at: d.scheduled->0 }]
    } else {
        seq![NoticeKind::Rescheduled { at: d.scheduled->0, event_id: live.event_id }]
    };
    let live1 = if resched { Live { scheduled: d.scheduled, ..live } } else { live };
    let starts = d.started is Some && live1.started is None;
    let live2 = if starts { Live { started: d.started, ..live1 } } else { live1 };
    let n2 = if starts { n1.push(NoticeKind::Started { event_id: live2.event_id }) } else { n1 };
    match d.ended {
        Some(e) => (
            with_lives(s, s.lives.remove(id)),
            n2.push(NoticeKind::Ended { started: or_else(live2.started, e), ended: e, event_id: live2.event_id }),
        ),
        None => (with_lives(s, s.lives.insert(id, live2)), n2),
    }
}

/// A video seen for the first time: an upload is announced; a finished stream gets its end;
/// any other stream is tracked from now on and announced as started or scheduled.
pub open spec fn observe_new(s: StateView, v: VideoView, now: i64) -> (StateView, Seq<NoticeKind>) {
    let key = seen_key_of(v.channel);
    let s1 = with_seen(s, s.seen.insert(key, marked(s.seen_list(key), v.id)));
    match v.live {
        None => (s1, seq![NoticeKind::Uploaded]),
        Some(d) => match d.ended {
            Some(e) => (s1, seq![NoticeKind::Ended { started: or_else(d.started, e), ended: e, event_id: None }]),
            None => {
                let s2 = with_lives(
                    s1,
                    s1.lives.insert(v.id, Live { first_seen: now, scheduled: d.scheduled, started: d.started, event_id: None }),
                );
                if d.started is Some {
                    (s2, seq![NoticeKind::Started { event_id: None }])
                } else if d.scheduled is Some {
                    (s2, seq![NoticeKind::Scheduled { at: d.scheduled->0 }])
                } else {
                    (s2, Seq::empty())
                }
            },
        },
    }
}

/// The state after observing `v` at `now`, and what to announce, in order.
pub open spec fn observe_spec(s: StateView, v: VideoView, now: i64) -> (StateView, Seq<NoticeKind>) {
    if s.lives.contains_key(v.id) {
        match v.live {
            None => (s, Seq::empty()),
            Some(d) => observe_tracked(s, v.id, s.lives[v.id], d),
        }
    } else if s.is_seen(seen_key_of(v.channel), v.id) {
        (s, Seq::empty())
    } else {
        observe_new(s, v, now)
    }
}

/// Advances the tracking state for one video and returns what to announce, in order.
pub fn observe<'a>(state: &mut State, v: &'a Video, now: i64) -> (out: Vec<Notice<'a>>)
    requires
        old(state).wf(),
    ensures
        final(state).wf(),
        (final(state)@, notice_kinds(out@)) == observe_spec(old(state)@, v@, now),
        forall|i: int| 0 <= i < out@.len() ==> out@[i].about() == *v,
{
    let ghost s0 = state@;
    match state.live(v.id.as_str()) {
        Some(live) => {
            let d = match v.live {
                Some(d) => d,
                None => {
                    assert(notice_kinds(Seq::<Notice<'a>>::empty()) =~= Seq::<NoticeKind>::empty());
                    return Vec::new();
                },
            };
            let mut out: Vec<Notice<'a>> = Vec::new();
            let mut live = live;
            if live.started.is_none() && d.started.is_none() && d.ended.is_none() && d.scheduled.is_some()
                && live.scheduled != d.scheduled {
                let at = d.scheduled.unwrap();
                if live.scheduled.is_none() {
                    out.push(Notice::Scheduled { video: v, at });
                } else {
                    out.push(Notice::Rescheduled { video: v, at, event_id: live.event_id });
                }
                live.scheduled = Some(at);
            }
            if d.started.is_some() && live.started.is_none() {
                live.started = d.started;
                out.push(Notice::Started { video: v, event_id: live.event_id });
            }
            match d.ended {
                Some(ended) => {
                    let started = match live.started {
                        Some(t) => t,
                        None => ended,
                    };
                    state.remove_live(v.id.as_str());
                    out.push(Notice::Ended { video: v, started, ended, event_id: live.event_id });
                },
                None => {
                    state.insert_live(v.id.as_str(), live);
                },
            }
            proof {
                let (ts, tn) = observe_tracked(s0, v.id@, s0.lives[v.id@], d);
                assert(notice_kinds(out@) =~= tn);
                assert(state@ == ts);
            }
            out
        },
        None => {
            let key = seen_key(v.channel.as_str());
            if !state.mark_seen(key.as_str(), v.id.as_str()) {
                assert(state@.seen =~= s0.seen);
                assert(notice_kinds(Seq::<Notice<'a>>::empty()) =~= Seq::<NoticeKind>::empty());
                return Vec::new();
            }
            let mut out: Vec<Notice<'a>> = Vec::new();
            match v.live {
                None => {
                    out.push(Notice::Uploaded(v));
                },
                Some(d) => {
                    match d.ended {
                        Some(ended) => {
                            let started = match d.started {
                                Some(t) => t,
                                None => ended,
                            };
                            out.push(Notice::Ended { video: v, started, ended, event_id: None });
                        },
                        None => {
                            state.insert_live(
                                v.id.as_str(),
                                Live { first_seen: now, scheduled: d.scheduled, started: d.started, event_id: None },
                            );
                            if d.started.is_some() {
                                out.push(Notice::Started { video: v, event_id: None });
                            } else if d.scheduled.is_some() {
                                out.push(Notice::Scheduled { video: v, at: d.scheduled.unwrap() });
                            }
                        },
                    }
                },
            }
            proof {
                let (ns, nn) = observe_new(s0, v@, now);
                assert(notice_kinds(out@) =~= nn);
                assert(state@ == ns);
            }
            out
        },
    }
}

/// Records the first successful snapshot, including ongoing streams, without notifying.
pub fn baseline(state: &mut State, video: &Video, now: i64)
    requires
        old(state).wf(),
    ensures
        final(state).wf(),
        final(state)@ == observe_spec(old(state)@, video@, now).0,
{
    let _ = observe(state, video, now);
}

/// Observing the same video again, with the same details, announces nothing and changes nothing.
/// This holds whenever a tracked video is also remembered under its channel, which `observe`
/// itself keeps true.
pub proof fn law_repeat_observation_is_silent(s: StateView, v: VideoView, now: i64, later: i64)
    requires
        s.lives.contains_key(v.id) ==> s.is_seen(seen_key_of(v.channel), v.id),
    ensures
        observe_spec(observe_spec(s, v, now).0, v, later).0 == observe_spec(s, v, now).0,
        observe_spec(observe_spec(s, v, now).0, v, later).1.len() == 0,
{
    let key = seen_key_of(v.channel);
    let (s1, n1) = observe_spec(s, v, now);
    if s.lives.contains_key(v.id) {
        match v.live {
            None => {},
            Some(d) => {
                if d.ended is None {
                    let live2 = s1.lives[v.id];
                    assert(s1.lives.insert(v.id, live2) =~= s1.lives);
                } else {
                    assert(s1.seen == s.seen);
                }
            },
        }
    } else if s.is_seen(key, v.id) {
    } else {
        law_marking_remembers_within_bound(s.seen_list(key), v.id);
        assert(s1.is_seen(key, v.id));
        match v.live {
            None => {},
            Some(d) => {
                if d.ended is None {
                    let live = s1.lives[v.id];
                    assert(s1.lives.insert(v.id, live) =~= s1.lives);
                }
            },
        }
    }
}

/// A stream that the API reports as ended is never tracked after it is observed.
pub proof fn law_finished_stream_is_not_tracked(s: StateView, v: VideoView, now: i64)
    requires
        v.live matches Some(d) && d.ended is Some,
    ensures
        !observe_spec(s, v, now).0.lives.contains_key(v.id),
{
}

/// A video that was not tracked is remembered under its channel once observed, so it is
/// never announced as new again while it stays among the remembered IDs.
pub proof fn law_observed_video_is_remembered(s: StateView, v: VideoView, now: i64)
    requires
        !s.lives.contains_key(v.id),
    ensures
        observe_spec(s, v, now).0.is_seen(seen_key_of(v.channel), v.id),
{
    law_marking_remembers_within_bound(s.seen_list(seen_key_of(v.channel)), v.id);
}

/// A stream that has not ended is tracked once observed, whether it was already tracked or is
/// new, so its start and end are announced later even when it was first seen in a baseline.
pub proof fn law_ongoing_stream_is_tracked(s: StateView, v: VideoView, now: i64)
    requires
        v.live matches Some(d) && d.ended is None,
        s.lives.contains_key(v.id) || !s.is_seen(seen_key_of(v.channel), v.id),
    ensures
        observe_spec(s, v, now).0.lives.contains_key(v.id),
{
}

/// A tracked stream that has not started follows its schedule: when the API reports a different
/// start time (earlier or later) and neither a start nor an end, the only notice is a reschedule
/// to the new time for the stream's event, and the new time is stored; when the stream had no
/// stored time yet, the only notice is its first schedule. A report of the stored time announces
/// nothing and changes nothing. Nothing else of the state changes either way.
pub proof fn law_tracked_stream_follows_its_schedule(s: StateView, v: VideoView, now: i64)
    requires
        s.lives.contains_key(v.id),
        s.lives[v.id].started is None,
        v.live matches Some(d) && d.started is None && d.ended is None && d.scheduled is Some,
    ensures
        ({
            let live = s.lives[v.id];
            let at = v.live->0.scheduled->0;
            let (t, ns) = observe_spec(s, v, now);
            &&& t.seen == s.seen && t.pending == s.pending && t.event_updates == s.event_updates
            &&& t.lives == s.lives.insert(v.id, Live { scheduled: Some(at), ..live })
            &&& live.scheduled == Some(at) ==> ns.len() == 0 && t == s
            &&& live.scheduled is None ==> ns == seq![NoticeKind::Scheduled { at }]
            &&& (live.scheduled matches Some(old) && old != at) ==> ns == seq![NoticeKind::Rescheduled { at, event_id: live.event_id }]
        }),
{
    let live = s.lives[v.id];
    if live.scheduled == v.live->0.scheduled {
        assert(s.lives.insert(v.id, live) =~= s.lives);
        assert(Live { scheduled: v.live->0.scheduled, ..live } == live);
    }
}

/// A tracked stream's start and end are announced once, for the stream's event: when the API
/// first reports a start, the start is announced and stored; when it reports an end, the end is
/// announced with the stored start (or the reported one, or else the end itself) and the stream is
/// no longer tracked.
pub proof fn law_tracked_stream_start_and_end(s: StateView, v: VideoView, now: i64)
    requires
        s.lives.contains_key(v.id),
        v.live is Some,
    ensures
        ({
            let live = s.lives[v.id];
            let d = v.live->0;
            let (t, ns) = observe_spec(s, v, now);
            &&& t.seen == s.seen && t.pending == s.pending && t.event_updates == s.event_updates
            &&& (live.started is None && d.started is Some && d.ended is None) ==> {
                &&& ns == seq![NoticeKind::Started { event_id: live.event_id }]
                &&& t.lives == s.lives.insert(v.id, Live { started: d.started, ..live })
            }
            &&& (live.started is None && d.started is Some && d.ended is Some) ==> {
                &&& ns == seq![
                    NoticeKind::Started { event_id: live.event_id },
                    NoticeKind::Ended { started: d.started->0, ended: d.ended->0, event_id: live.event_id },
                ]
                &&& t.lives == s.lives.remove(v.id)
            }
            &&& (live.started is Some && d.ended is Some) ==> {
                &&& ns == seq![NoticeKind::Ended { started: live.started->0, ended: d.ended->0, event_id: live.event_id }]
                &&& t.lives == s.lives.remove(v.id)
            }
            &&& (live.started is None && d.started is None && d.ended is Some) ==> {
                &&& ns == seq![NoticeKind::Ended { started: d.ended->0, ended: d.ended->0, event_id: live.event_id }]
                &&& t.lives == s.lives.remove(v.id)
            }
        }),
{
    assert(seq![NoticeKind::Started { event_id: s.lives[v.id].event_id }] =~= Seq::<NoticeKind>::empty().push(NoticeKind::Started { event_id: s.lives[v.id].event_id }));
}

/// A video seen for the first time is announced by what it is: an upload as an upload; a stream
/// that already ended by its end (from its start, or else from its end), without tracking it; a
/// stream on air as started; a stream with only a schedule as scheduled for that time. A stream
/// that has not ended is tracked from now on with the reported times and no event yet.
pub proof fn law_new_video_is_announced_by_what_it_is(s: StateView, v: VideoView, now: i64)
    requires
        !s.lives.contains_key(v.id),
        !s.is_seen(seen_key_of(v.channel), v.id),
    ensures
        ({
            let (t, ns) = observe_spec(s, v, now);
            &&& t.pending == s.pending && t.event_updates == s.event_updates
            &&& t.is_seen(seen_key_of(v.channel), v.id)
            &&& v.live is None ==> ns == seq![NoticeKind::Uploaded] && t.lives == s.lives
            &&& (v.live matches Some(d) && d.ended is Some) ==> ns == seq![NoticeKind::Ended {
                started: or_else(v.live->0.started, v.live->0.ended->0),
                ended: v.live->0.ended->0,
                event_id: None,
            }] && t.lives == s.lives
            &&& (v.live matches Some(d) && d.ended is None) ==> t.lives == s.lives.insert(
                v.id,
                Live { first_seen: now, scheduled: v.live->0.scheduled, started: v.live->0.started, event_id: None },
            )
            &&& (v.live matches Some(d) && d.ended is None && d.started is Some) ==> ns == seq![NoticeKind::Started { event_id: None }]
            &&& (v.live matches Some(d) && d.ended is None && d.started is None && d.scheduled is Some) ==> ns == seq![NoticeKind::Scheduled { at: v.live->0.scheduled->0 }]
        }),
{
    law_marking_remembers_within_bound(s.seen_list(seen_key_of(v.channel)), v.id);
}

/// A new schedule is announced only for a tracked stream that neither had started nor, by the
/// API's account, has started or ended.
pub proof fn law_reschedule_only_before_start(s: StateView, v: VideoView, now: i64, i: int)
    requires
        0 <= i < observe_spec(s, v, now).1.len(),
        observe_spec(s, v, now).1[i] is Rescheduled,
    ensures
        s.lives.contains_key(v.id),
        s.lives[v.id].started is None,
        v.live matches Some(d) && d.started is None && d.ended is None,
{
}

} // verus!
