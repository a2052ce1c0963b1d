//! What the YouTube Data API's answers mean for the library: upload playlists, video details and
//! their timestamps. The requests themselves are made by the application.
use vstd::prelude::*;
use crate::text::{append_str, chars_of, matches_at, parse_u64, parse_u64_spec, replace_all, replace_chars, slice_chars, starts_with, string_of};
use crate::tracker::{LiveDetails, Video, VideoView};

verus! {

/// How many of a channel's latest uploads are listed per round.
pub const LATEST_UPLOADS: usize = 10;

/// How many videos one details request may ask for.
pub const VIDEOS_PER_REQUEST: usize = 50;

/// Why an answer of the API cannot be used.
#[derive(Clone, Copy, Debug, PartialEq, Eq, Structural)]
pub enum YoutubeError {
    /// A channel ID that does not start with `UC` has no uploads playlist.
    NotAChannel,
    /// A time that is not an RFC 3339 timestamp.
    BadTimestamp,
}

impl YoutubeError {
    pub fn message(&self) -> (r: String)
        ensures
            r@ == (match self {
                YoutubeError::NotAChannel => "YouTube channel id must start with UC"@,
                YoutubeError::BadTimestamp => "YouTube returned a time that is not an RFC 3339 timestamp"@,
            }),
    {
        match self {
            YoutubeError::NotAChannel => "YouTube channel id must start with UC".to_owned(),
            YoutubeError::BadTimestamp => "YouTube returned a time that is not an RFC 3339 timestamp".to_owned(),
        }
    }
}

pub open spec fn uploads_playlist_of(channel: Seq<char>) -> Option<Seq<char>> {
    if starts_with(channel, "UC"@) {
        Some("UU"@ + channel.skip(2))
    } else {
        None
    }
}

/// The uploads playlist of a channel, which also lists its scheduled and running streams: the
/// channel ID with `UC` swapped for `UU`.
pub fn uploads_playlist(channel: &str) -> (r: Result<String, YoutubeError>)
    ensures
        match uploads_playlist_of(channel@) {
            Some(p) => r matches Ok(x) && x@ == p,
            None => r == Err::<String, YoutubeError>(YoutubeError::NotAChannel),
        },
{
    let cs = chars_of(channel);
    let uc = chars_of("UC");
    proof { reveal_strlit("UC"); }
    assert(cs@.skip(0) =~= cs@);
    if !matches_at(&cs, 0, &uc) {
        return Err(YoutubeError::NotAChannel);
    }
    let mut v = chars_of("UU");
    let n = cs.len();
    let rest = slice_chars(&cs, 2, n);
    crate::text::append_chars(&mut v, &rest);
    assert(rest@ =~= channel@.skip(2));
    Ok(string_of(v.as_slice()))
}

/// The Unix time, in seconds, of the RFC 3339 timestamp `text`, as serenity reads it; nothing
/// where `text` is not such a timestamp.
pub uninterp spec fn rfc3339_seconds(text: Seq<char>) -> Option<i64>;

/// serenity's `Timestamp::parse` followed by `Timestamp::unix_timestamp`: the result is
/// [`rfc3339_seconds`] of the text, which depends on the text alone; which texts are accepted and
/// what time each denotes (RFC 3339) is left to serenity and not stated here.
#[verifier::external_body]
fn parse_timestamp(text: &str) -> (r: Option<i64>)
    ensures
        r == rfc3339_seconds(text@),
{
    serenity::model::Timestamp::parse(text).ok().map(|t| t.unix_timestamp())
}

pub open spec fn unix_of(t: Option<Seq<char>>) -> Result<Option<i64>, YoutubeError> {
    match t {
        None => Ok(None),
        Some(s) => match rfc3339_seconds(s) {
            Some(x) => Ok(Some(x)),
            None => Err(YoutubeError::BadTimestamp),
        },
    }
}

pub open spec fn opt_view(t: Option<String>) -> Option<Seq<char>> {
    match t {
        Some(s) => Some(s@),
        None => None,
    }
}

/// An optional RFC 3339 timestamp as Unix seconds.
pub fn unix(t: &Option<String>) -> (r: Result<Option<i64>, YoutubeError>)
    ensures
        r == unix_of(opt_view(*t)),
{
    match t {
        None => Ok(None),
        Some(s) => match parse_timestamp(s.as_str()) {
            Some(x) => Ok(Some(x)),
            None => Err(YoutubeError::BadTimestamp),
        },
    }
}

/// The stream times of a video as the API returns them.
pub struct LiveTimes {
    pub scheduled_start_time: Option<String>,
    pub actual_start_time: Option<String>,
    pub actual_end_time: Option<String>,
}

/// One item of a video details answer.
pub struct VideoItem {
    pub id: String,
    pub title: String,
    pub channel_id: String,
    pub view_count: Option<String>,
    pub like_count: Option<String>,
    pub live: Option<LiveTimes>,
}

pub open spec fn count_value(c: Option<String>) -> Option<u64> {
    match c {
        Some(s) => parse_u64_spec(s@),
        None => None,
    }
}

/// The live details of an item, or the first of its times that cannot be read.
pub open spec fn live_of(l: Option<LiveTimes>) -> Result<Option<LiveDetails>, YoutubeError> {
    match l {
        None => Ok(None),
        Some(t) => match (unix_of(opt_view(t.scheduled_start_time)), unix_of(opt_view(t.actual_start_time)), unix_of(opt_view(t.actual_end_time))) {
            (Ok(a), Ok(b), Ok(c)) => Ok(Some(LiveDetails { scheduled: a, started: b, ended: c })),
            (Err(e), _, _) => Err(e),
            (_, Err(e), _) => Err(e),
            (_, _, Err(e)) => Err(e),
        },
    }
}

/// A video from its details: counts that are missing or not numbers are unknown.
pub open spec fn video_of_spec(i: VideoItem) -> Result<VideoView, YoutubeError> {
    match live_of(i.live) {
        Err(e) => Err(e),
        Ok(live) => Ok(VideoView {
            id: i.id@,
            channel: i.channel_id@,
            title: i.title@,
            live,
            views: count_value(i.view_count),
            likes: count_value(i.like_count),
        }),
    }
}

/// The time an optional API timestamp denotes; `None` where the field is missing.
pub open spec fn time_of(t: Option<String>) -> Option<i64> {
    match t {
        Some(x) => rfc3339_seconds(x@),
        None => None,
    }
}

/// Whether an optional API timestamp is missing or readable.
pub open spec fn readable(t: Option<String>) -> bool {
    match t {
        Some(x) => rfc3339_seconds(x@) is Some,
        None => true,
    }
}

/// An item whose times can all be read becomes the video with the same id, channel and title,
/// whose stream (if the item has stream times) was scheduled for the item's scheduled start,
/// started at its actual start and ended at its actual end, each missing where the item has none.
/// An item with a time that cannot be read is refused as a bad timestamp.
pub proof fn law_video_keeps_its_stream_times(i: VideoItem)
    ensures
        (match i.live {
            None => true,
            Some(t) => readable(t.scheduled_start_time) && readable(t.actual_start_time) && readable(t.actual_end_time),
        }) ==> {
            &&& video_of_spec(i) is Ok
            &&& video_of_spec(i)->Ok_0.id == i.id@
            &&& video_of_spec(i)->Ok_0.channel == i.channel_id@
            &&& video_of_spec(i)->Ok_0.title == i.title@
            &&& video_of_spec(i)->Ok_0.live == (match i.live {
                None => None,
                Some(t) => Some(LiveDetails {
                    scheduled: time_of(t.scheduled_start_time),
                    started: time_of(t.actual_start_time),
                    ended: time_of(t.actual_end_time),
                }),
            })
        },
        (match i.live {
            None => false,
            Some(t) => !(readable(t.scheduled_start_time) && readable(t.actual_start_time) && readable(t.actual_end_time)),
        }) ==> video_of_spec(i) == Err::<VideoView, YoutubeError>(YoutubeError::BadTimestamp),
{
}

fn count_exec(c: &Option<String>) -> (r: Option<u64>)
    ensures
        r == count_value(*c),
{
    match c {
        Some(s) => parse_u64(s.as_str()),
        None => None,
    }
}

/// The video an API item describes.
pub fn video_of(item: &VideoItem) -> (r: Result<Video, YoutubeError>)
    ensures
        match video_of_spec(*item) {
            Ok(v) => r matches Ok(x) && x@ == v,
            Err(e) => r == Err::<Video, YoutubeError>(e),
        },
{
    let views = count_exec(&item.view_count);
    let likes = count_exec(&item.like_count);
    let live = match &item.live {
        None => None,
        Some(t) => {
            let a = unix(&t.scheduled_start_time);
            let b = unix(&t.actual_start_time);
            let c = unix(&t.actual_end_time);
            match (a, b, c) {
                (Ok(a), Ok(b), Ok(c)) => Some(LiveDetails { scheduled: a, started: b, ended: c }),
                (Err(e), _, _) => return Err(e),
                (_, Err(e), _) => return Err(e),
                (_, _, Err(e)) => return Err(e),
            }
        },
    };
    Ok(Video { id: item.id.clone(), channel: item.channel_id.clone(), title: item.title.clone(), live, views, likes })
}

/// `body` with every occurrence of the API key replaced, so that logs never show it.
pub fn redact(body: &str, key: &str) -> (r: String)
    ensures
        r@ == (if key@.len() == 0 { body@ } else { replace_all(body@, key@, "[redacted]"@) }),
{
    if key.is_empty() {
        return body.to_owned();
    }
    let b = chars_of(body);
    let k = chars_of(key);
    let to = chars_of("[redacted]");
    string_of(replace_chars(&b, &k, &to).as_slice())
}

pub open spec fn videos_of_spec(items: Seq<VideoItem>) -> Result<Seq<VideoView>, YoutubeError>
    decreases items.len(),
{
    if items.len() == 0 {
        Ok(Seq::empty())
    } else {
        match videos_of_spec(items.drop_last()) {
            Err(e) => Err(e),
            Ok(vs) => match video_of_spec(items.last()) {
                Err(e) => Err(e),
                Ok(v) => Ok(vs.push(v)),
            },
        }
    }
}

/// The videos of a details answer, in order; the first unreadable item makes the answer unusable.
pub fn videos_of(items: &Vec<VideoItem>) -> (r: Result<Vec<Video>, YoutubeError>)
    ensures
        match videos_of_spec(items@) {
            Ok(vs) => r matches Ok(x) && x@.map_values(|v: Video| v@) == vs,
            Err(e) => r == Err::<Vec<Video>, YoutubeError>(e),
        },
{
    let ghost all = items@;
    let mut out: Vec<Video> = Vec::new();
    let mut i: usize = 0;
    assert(all.take(0) =~= Seq::<VideoItem>::empty());
    while i < items.len()
        invariant
            all == items@,
            i <= all.len(),
            videos_of_spec(all.take(i as int)) matches Ok(vs) && out@.map_values(|v: Video| v@) == vs,
        decreases all.len() - i,
    {
        assert(all.take(i as int + 1).drop_last() =~= all.take(i as int));
        assert(all.take(i as int + 1).last() == items@[i as int]);
        match video_of(&items[i]) {
            Ok(v) => {
                let ghost before = out@.map_values(|v: Video| v@);
                let ghost vv = v@;
                out.push(v);
                assert(out@.map_values(|v: Video| v@) =~= before.push(vv));
            },
            Err(e) => {
                proof { lemma_videos_err_prefix(all, i as int + 1); }
                return Err(e);
            },
        }
        i = i + 1;
    }
    assert(all.take(i as int) =~= all);
    Ok(out)
}

proof fn lemma_videos_err_prefix(all: Seq<VideoItem>, n: int)
    requires
        0 <= n <= all.len(),
        videos_of_spec(all.take(n)) is Err,
    ensures
        videos_of_spec(all) == videos_of_spec(all.take(n)),
    decreases all.len() - n,
{
    if n == all.len() {
        assert(all.take(n) =~= all);
    } else {
        lemma_videos_err_prefix_step(all, n, all.len() as int);
        assert(all.take(all.len() as int) =~= all);
    }
}

proof fn lemma_videos_err_prefix_step(all: Seq<VideoItem>, n: int, m: int)
    requires
        0 <= n <= m <= all.len(),
        videos_of_spec(all.take(n)) is Err,
    ensures
        videos_of_spec(all.take(m)) == videos_of_spec(all.take(n)),
    decreases m - n,
{
    if m > n {
        lemma_videos_err_prefix_step(all, n, m - 1);
        assert(all.take(m).drop_last() =~= all.take(m - 1));
    }
}

} // verus!
