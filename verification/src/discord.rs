//! The decisions behind every Discord call: event status transitions, which failures are worth
//! retrying, and the shape of scheduled events and their links.
use vstd::prelude::*;
use crate::text::{append_chars, append_str, chars_of, decimal, digits, string_of};

verus! {

/// External events need an end time and YouTube has none. Discord completes the event at this
/// point on its own, so a stream longer than this loses its event card early.
pub const EVENT_SECS: i64 = 3 * 3600;

/// The longest event name Discord accepts, in characters.
pub const EVENT_NAME_CHARS: usize = 100;

/// The status of a Discord scheduled event.
#[derive(Clone, Copy, Debug, PartialEq, Eq, Structural)]
pub enum EventStatus {
    Scheduled,
    Active,
    Completed,
    Canceled,
    Unknown(u8),
}

/// Completed and canceled events never change again.
pub open spec fn is_final(s: EventStatus) -> bool {
    s is Completed || s is Canceled
}

pub open spec fn next_status_spec(current: EventStatus, desired: EventStatus) -> Option<EventStatus> {
    if current == desired || is_final(current) {
        None
    } else if current == EventStatus::Scheduled && desired == EventStatus::Completed {
        Some(EventStatus::Active)
    } else {
        Some(desired)
    }
}

/// The next status to set on the way from `current` to `desired`, following Discord's allowed
/// transitions (a scheduled event must become active before it completes); `None` once there is
/// nothing left to do, which makes replaying an update harmless.
pub fn next_status(current: EventStatus, desired: EventStatus) -> (r: Option<EventStatus>)
    ensures
        r == next_status_spec(current, desired),
{
    if current == desired || matches!(current, EventStatus::Completed | EventStatus::Canceled) {
        None
    } else if current == EventStatus::Scheduled && desired == EventStatus::Completed {
        Some(EventStatus::Active)
    } else {
        Some(desired)
    }
}

/// Driving an event towards a status with [`next_status`], applying each step, ends after at most
/// two edits, in the desired status or in one that never changes again.
pub proof fn law_status_updates_settle(current: EventStatus, desired: EventStatus)
    ensures
        ({
            let settled = |s: EventStatus| next_status_spec(s, desired) is None;
            ||| settled(current)
            ||| settled(next_status_spec(current, desired)->0)
            ||| settled(next_status_spec(next_status_spec(current, desired)->0, desired)->0)
        }),
        forall|s: EventStatus| #[trigger] next_status_spec(s, desired) is None ==> s == desired || is_final(s),
{
}

/// Asking again for the status an event already has changes nothing.
pub proof fn law_status_replay_is_harmless(s: EventStatus)
    ensures
        next_status_spec(s, s) is None,
{
}

/// Why a Discord request failed, as far as the retry rules care.
#[derive(Clone, Copy, Debug, PartialEq, Eq, Structural)]
pub enum Failure {
    /// Discord answered with this HTTP status.
    Status(u16),
    /// The request did not complete; `builder` when it could not even be built.
    Request { builder: bool },
    /// A rate-limit header could not be read.
    RateLimited,
    /// Anything else: invalid input, a deleted channel, an error outside the HTTP layer.
    Other,
}

pub open spec fn retryable_status_spec(status: u16) -> bool {
    500 <= status <= 599 || status == 429
}

pub open spec fn retryable_spec(f: Failure) -> bool {
    match f {
        Failure::Status(code) => retryable_status_spec(code),
        Failure::Request { builder } => !builder,
        Failure::RateLimited => true,
        Failure::Other => false,
    }
}

/// Server errors and "too many requests" are transient.
pub fn retryable_status(status: u16) -> (r: bool)
    ensures
        r == retryable_status_spec(status),
{
    (500 <= status && status <= 599) || status == 429
}

/// Only transient Discord failures should keep an event update in the retry queue.
pub fn retryable(f: Failure) -> (r: bool)
    ensures
        r == retryable_spec(f),
{
    match f {
        Failure::Status(code) => retryable_status(code),
        Failure::Request { builder } => !builder,
        Failure::RateLimited => true,
        Failure::Other => false,
    }
}

/// Permissions and credentials can be repaired, so a message refused with 401 or 403 is kept;
/// invalid payloads and deleted channels cannot.
pub fn retryable_message(f: Failure) -> (r: bool)
    ensures
        r == (f == Failure::Status(401) || f == Failure::Status(403) || retryable_spec(f)),
{
    match f {
        Failure::Status(401) | Failure::Status(403) => true,
        _ => retryable(f),
    }
}

/// The name an event gets: at most [`EVENT_NAME_CHARS`] characters of the title.
pub fn event_name(title: &str) -> (r: String)
    ensures
        r@ == (if title@.len() <= EVENT_NAME_CHARS { title@ } else { title@.take(EVENT_NAME_CHARS as int) }),
{
    let cs = chars_of(title);
    if cs.len() <= EVENT_NAME_CHARS {
        string_of(cs.as_slice())
    } else {
        let mut v: Vec<char> = Vec::new();
        let mut i: usize = 0;
        while i < EVENT_NAME_CHARS
            invariant
                i <= EVENT_NAME_CHARS < cs@.len(),
                v@ == cs@.take(i as int),
            decreases EVENT_NAME_CHARS - i,
        {
            v.push(cs[i]);
            assert(cs@.take(i as int + 1) =~= cs@.take(i as int).push(cs@[i as int]));
            i = i + 1;
        }
        string_of(v.as_slice())
    }
}

/// Start and end of the event for a stream starting at `start`; `None` where the end would not
/// fit in an `i64`.
pub fn event_window(start: i64) -> (r: Option<(i64, i64)>)
    ensures
        r == (if start + EVENT_SECS <= i64::MAX { Some((start, (start + EVENT_SECS) as i64)) } else { None }),
{
    if start <= i64::MAX - EVENT_SECS {
        Some((start, start + EVENT_SECS))
    } else {
        None
    }
}

/// An event is moved only while it is still scheduled, to a different start that lies in the
/// future: active events cannot return to scheduled, and Discord refuses start times in the past.
pub fn needs_reschedule(status: EventStatus, current_start: i64, start: i64, now: i64) -> (r: bool)
    ensures
        r == (status == EventStatus::Scheduled && current_start != start && start > now),
{
    status == EventStatus::Scheduled && current_start != start && start > now
}

pub open spec fn event_link_of(guild: u64, event: u64) -> Seq<char> {
    "https://discord.com/events/"@ + digits(guild as nat) + "/"@ + digits(event as nat)
}

/// Pasting this into a channel renders the event card with its "Interested" button.
pub fn event_link(guild: u64, event: u64) -> (r: String)
    ensures
        r@ == event_link_of(guild, event),
{
    let mut v: Vec<char> = Vec::new();
    append_str(&mut v, "https://discord.com/events/");
    append_chars(&mut v, &decimal(guild));
    append_str(&mut v, "/");
    append_chars(&mut v, &decimal(event));
    string_of(v.as_slice())
}

} // verus!
