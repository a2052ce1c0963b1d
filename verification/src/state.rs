//! What has already been announced: the IDs seen per source, the streams still being tracked,
//! and the deliveries and event updates that wait for Discord.
use vstd::prelude::*;
use std::collections::VecDeque;
use crate::assoc::{assoc_map, distinct_keys, has_key, lemma_assoc_at, lemma_assoc_push, lemma_assoc_remove, lemma_assoc_update};
use crate::text::str_eq;

verus! {

/// IDs remembered per source. Both pages that are polled return far fewer than this.
pub const KEEP: usize = 200;

/// A live that was never seen to finish is forgotten after this many seconds.
pub const LIVE_TTL: i64 = 7 * 24 * 3600;

/// A YouTube stream that is still being tracked (scheduled or on air).
#[derive(Clone, Copy, Debug, PartialEq, Eq, Structural)]
pub struct Live {
    pub first_seen: i64,
    pub scheduled: Option<i64>,
    pub started: Option<i64>,
    /// Discord scheduled event created for it, if creation succeeded.
    pub event_id: Option<u64>,
}

/// A Discord event to create when the notice that carries it is delivered.
#[derive(Clone, Debug, PartialEq, Eq)]
pub struct EventCreation {
    pub video: String,
    pub title: String,
    pub at: i64,
}

pub struct EventCreationView {
    pub video: Seq<char>,
    pub title: Seq<char>,
    pub at: i64,
}

impl View for EventCreation {
    type V = EventCreationView;

    open spec fn view(&self) -> EventCreationView {
        EventCreationView { video: self.video@, title: self.title@, at: self.at }
    }
}

/// One message for one Discord channel; it stays queued until Discord accepts it.
#[derive(Clone, Debug, PartialEq, Eq)]
pub struct Delivery {
    pub channel: u64,
    pub content: String,
    /// Only scheduled notices may create an event; startup baselines never enqueue these.
    pub event: Option<EventCreation>,
}

pub struct DeliveryView {
    pub channel: u64,
    pub content: Seq<char>,
    pub event: Option<EventCreationView>,
}

pub open spec fn creation_view(e: Option<EventCreation>) -> Option<EventCreationView> {
    match e {
        Some(c) => Some(c@),
        None => None,
    }
}

impl View for Delivery {
    type V = DeliveryView;

    open spec fn view(&self) -> DeliveryView {
        DeliveryView { channel: self.channel, content: self.content@, event: creation_view(self.event) }
    }
}

impl EventCreation {
    pub fn duplicate(&self) -> (r: EventCreation)
        ensures
            r@ == self@,
    {
        EventCreation { video: self.video.clone(), title: self.title.clone(), at: self.at }
    }
}

impl Delivery {
    pub fn duplicate(&self) -> (r: Delivery)
        ensures
            r@ == self@,
    {
        let event = match &self.event {
            Some(e) => Some(e.duplicate()),
            None => None,
        };
        Delivery { channel: self.channel, content: self.content.clone(), event }
    }
}

/// What to do to an existing Discord event.
#[derive(Clone, Copy, Debug, PartialEq, Eq, Structural)]
pub enum EventAction {
    Reschedule(i64),
    Start,
    Complete,
}

#[derive(Clone, Copy, Debug, PartialEq, Eq, Structural)]
pub struct EventUpdate {
    pub event: u64,
    pub action: EventAction,
}

struct SeenEntry {
    key: String,
    ids: VecDeque<String>,
}

struct LiveEntry {
    video: String,
    live: Live,
}

pub open spec fn strings_view(s: Seq<String>) -> Seq<Seq<char>> {
    s.map_values(|x: String| x@)
}

/// The model of a [`State`].
pub struct StateView {
    /// `"threads:<user>"` / `"youtube:<channel>"` -> newest-last IDs already handled.
    pub seen: Map<Seq<char>, Seq<Seq<char>>>,
    /// YouTube video id -> live stream still being tracked.
    pub lives: Map<Seq<char>, Live>,
    /// Deliveries waiting for Discord, oldest first.
    pub pending: Seq<DeliveryView>,
    /// Event updates waiting for Discord, oldest first.
    pub event_updates: Seq<EventUpdate>,
}

impl StateView {
    /// The IDs remembered under `key`; none where the key is unknown.
    pub open spec fn seen_list(self, key: Seq<char>) -> Seq<Seq<char>> {
        if self.seen.contains_key(key) {
            self.seen[key]
        } else {
            Seq::empty()
        }
    }

    pub open spec fn is_seen(self, key: Seq<char>, id: Seq<char>) -> bool {
        self.seen_list(key).contains(id)
    }
}

/// The list that remembering `id` leaves: unchanged if `id` is known; otherwise `id` appended
/// and, past [`KEEP`] entries, the oldest one dropped.
pub open spec fn marked(ids: Seq<Seq<char>>, id: Seq<char>) -> Seq<Seq<char>> {
    if ids.contains(id) {
        ids
    } else if ids.len() + 1 > KEEP {
        ids.push(id).drop_first()
    } else {
        ids.push(id)
    }
}

/// The latest of the times a live was first seen, scheduled for and started at.
pub open spec fn live_since(l: Live) -> int {
    let a: int = l.first_seen as int;
    let b: int = match l.scheduled { Some(t) => t as int, None => 0 };
    let c: int = match l.started { Some(t) => t as int, None => 0 };
    let ab = if a >= b { a } else { b };
    if ab >= c { ab } else { c }
}

/// A live is kept while less than [`LIVE_TTL`] seconds have passed since [`live_since`].
pub open spec fn live_is_current(l: Live, now: i64) -> bool {
    now - live_since(l) < LIVE_TTL
}

pub open spec fn pruned(lives: Map<Seq<char>, Live>, now: i64) -> Map<Seq<char>, Live> {
    Map::new(|k: Seq<char>| lives.contains_key(k) && live_is_current(lives[k], now), |k: Seq<char>| lives[k])
}

/// A remembered ID stays remembered until newer ones push it out: right after it is marked it is
/// in the list, marking it again changes nothing, and a list of at most [`KEEP`] IDs never grows
/// past [`KEEP`].
pub proof fn law_marking_remembers_within_bound(ids: Seq<Seq<char>>, id: Seq<char>)
    ensures
        marked(ids, id).contains(id),
        marked(marked(ids, id), id) == marked(ids, id),
        ids.len() <= KEEP ==> marked(ids, id).len() <= KEEP,
        marked(ids, id).len() <= ids.len() + 1,
{
    if !ids.contains(id) {
        let l = ids.push(id);
        assert(l[l.len() - 1] == id);
        if ids.len() + 1 > KEEP {
            assert(l.drop_first()[l.len() - 2] == id);
        }
    }
}

/// Pruning twice at the same time drops nothing more than pruning once.
pub proof fn law_pruning_is_idempotent(lives: Map<Seq<char>, Live>, now: i64)
    ensures
        pruned(pruned(lives, now), now) == pruned(lives, now),
{
    assert(pruned(pruned(lives, now), now) =~= pruned(lives, now));
}

/// A live whose first sighting, schedule or start lies less than [`LIVE_TTL`] seconds back (in
/// particular one scheduled for the future) survives pruning unchanged.
pub proof fn law_recent_lives_are_kept(lives: Map<Seq<char>, Live>, now: i64, video: Seq<char>)
    requires
        lives.contains_key(video),
        now - live_since(lives[video]) < LIVE_TTL,
    ensures
        pruned(lives, now).contains_key(video),
        pruned(lives, now)[video] == lives[video],
{
}

/// Everything the bot remembers between rounds and across restarts.
pub struct State {
    seen: Vec<SeenEntry>,
    lives: Vec<LiveEntry>,
    /// Deliveries remain here until Discord accepts them, including across restarts.
    pending: VecDeque<Delivery>,
    event_updates: VecDeque<EventUpdate>,
}

impl State {
    pub closed spec fn seen_pairs(self) -> Seq<(Seq<char>, Seq<Seq<char>>)> {
        self.seen@.map_values(|e: SeenEntry| (e.key@, strings_view(e.ids@)))
    }

    pub closed spec fn live_pairs(self) -> Seq<(Seq<char>, Live)> {
        self.lives@.map_values(|e: LiveEntry| (e.video@, e.live))
    }

    /// No source key and no tracked video occurs twice.
    pub closed spec fn wf(self) -> bool {
        &&& distinct_keys(self.seen_pairs())
        &&& distinct_keys(self.live_pairs())
    }
}

impl View for State {
    type V = StateView;

    closed spec fn view(&self) -> StateView {
        StateView {
            seen: assoc_map(self.seen_pairs()),
            lives: assoc_map(self.live_pairs()),
            pending: self.pending@.map_values(|d: Delivery| d@),
            event_updates: self.event_updates@,
        }
    }
}

/// Position of `id` in `ids`, if present.
fn find_id(ids: &VecDeque<String>, id: &str) -> (r: Option<usize>)
    ensures
        match r {
            Some(j) => j < ids@.len() && ids@[j as int]@ == id@,
            None => !strings_view(ids@).contains(id@),
        },
        r is Some <==> strings_view(ids@).contains(id@),
{
    let mut j: usize = 0;
    while j < ids.len()
        invariant
            j <= ids@.len(),
            forall|k: int| 0 <= k < j ==> ids@[k]@ != id@,
        decreases ids@.len() - j,
    {
        if str_eq(ids[j].as_str(), id) {
            assert(strings_view(ids@)[j as int] == id@);
            return Some(j);
        }
        j = j + 1;
    }
    assert forall|k: int| 0 <= k < strings_view(ids@).len() implies strings_view(ids@)[k] != id@ by {
        assert(strings_view(ids@)[k] == ids@[k]@);
    }
    None
}

impl State {
    /// A state that remembers nothing.
    pub fn new() -> (s: State)
        ensures
            s.wf(),
            s@.seen == Map::<Seq<char>, Seq<Seq<char>>>::empty(),
            s@.lives == Map::<Seq<char>, Live>::empty(),
            s@.pending == Seq::<DeliveryView>::empty(),
            s@.event_updates == Seq::<EventUpdate>::empty(),
    {
        let s = State { seen: Vec::new(), lives: Vec::new(), pending: VecDeque::new(), event_updates: VecDeque::new() };
        assert(s@.seen =~= Map::<Seq<char>, Seq<Seq<char>>>::empty());
        assert(s@.lives =~= Map::<Seq<char>, Live>::empty());
        assert(s@.pending =~= Seq::<DeliveryView>::empty());
        s
    }

    fn seen_index(&self, key: &str) -> (r: Option<usize>)
        requires
            self.wf(),
        ensures
            match r {
                Some(i) => i < self.seen@.len() && self.seen@[i as int].key@ == key@
                    && self.seen_pairs()[i as int] == (key@, strings_view(self.seen@[i as int].ids@)),
                None => !has_key(self.seen_pairs(), key@),
            },
    {
        let mut i: usize = 0;
        while i < self.seen.len()
            invariant
                i <= self.seen@.len(),
                forall|k: int| 0 <= k < i ==> self.seen@[k].key@ != key@,
            decreases self.seen@.len() - i,
        {
            if str_eq(self.seen[i].key.as_str(), key) {
                return Some(i);
            }
            i = i + 1;
        }
        assert forall|k: int| 0 <= k < self.seen_pairs().len() implies self.seen_pairs()[k].0 != key@ by {
            assert(self.seen_pairs()[k].0 == self.seen@[k].key@);
        }
        None
    }

    fn live_index(&self, video: &str) -> (r: Option<usize>)
        requires
            self.wf(),
        ensures
            match r {
                Some(i) => i < self.lives@.len() && self.lives@[i as int].video@ == video@
                    && self.live_pairs()[i as int] == (video@, self.lives@[i as int].live),
                None => !has_key(self.live_pairs(), video@),
            },
    {
        let mut i: usize = 0;
        while i < self.lives.len()
            invariant
                i <= self.lives@.len(),
                forall|k: int| 0 <= k < i ==> self.lives@[k].video@ != video@,
            decreases self.lives@.len() - i,
        {
            if str_eq(self.lives[i].video.as_str(), video) {
                return Some(i);
            }
            i = i + 1;
        }
        assert forall|k: int| 0 <= k < self.live_pairs().len() implies self.live_pairs()[k].0 != video@ by {
            assert(self.live_pairs()[k].0 == self.lives@[k].video@);
        }
        None
    }

    /// Whether `id` is remembered under `key`.
    pub fn is_seen(&self, key: &str, id: &str) -> (r: bool)
        requires
            self.wf(),
        ensures
            r == self@.is_seen(key@, id@),
    {
        match self.seen_index(key) {
            Some(i) => {
                proof { lemma_assoc_at(self.seen_pairs(), i as int); }
                find_id(&self.seen[i].ids, id).is_some()
            },
            None => false,
        }
    }

    /// Records `id` under `key`; `true` if it was not known before.
    pub fn mark_seen(&mut self, key: &str, id: &str) -> (r: bool)
        requires
            old(self).wf(),
        ensures
            final(self).wf(),
            r == !old(self)@.is_seen(key@, id@),
            final(self)@.seen == old(self)@.seen.insert(key@, marked(old(self)@.seen_list(key@), id@)),
            final(self)@.lives == old(self)@.lives,
            final(self)@.pending == old(self)@.pending,
            final(self)@.event_updates == old(self)@.event_updates,
    {
        let ghost old_pairs = self.seen_pairs();
        match self.seen_index(key) {
            Some(i) => {
                proof { lemma_assoc_at(old_pairs, i as int); }
                if find_id(&self.seen[i].ids, id).is_some() {
                    assert(old(self)@.seen.insert(key@, marked(old(self)@.seen_list(key@), id@)) =~= old(self)@.seen);
                    return false;
                }
                let ghost old_ids = self.seen@[i as int].ids@;
                self.seen[i].ids.push_back(id.to_owned());
                if self.seen[i].ids.len() > KEEP {
                    self.seen[i].ids.pop_front();
                }
                proof {
                    let new_ids = strings_view(self.seen@[i as int].ids@);
                    let l = strings_view(old_ids);
                    if l.len() + 1 > KEEP {
                        assert(new_ids =~= l.push(id@).drop_first());
                    } else {
                        assert(new_ids =~= l.push(id@));
                    }
                    assert(self.seen_pairs() =~= old_pairs.update(i as int, (old_pairs[i as int].0, new_ids)));
                    lemma_assoc_update(old_pairs, i as int, new_ids);
                }
                true
            },
            None => {
                let mut ids: VecDeque<String> = VecDeque::new();
                ids.push_back(id.to_owned());
                self.seen.push(SeenEntry { key: key.to_owned(), ids });
                proof {
                    let new_ids = strings_view(self.seen@[self.seen@.len() - 1].ids@);
                    assert(new_ids =~= Seq::<Seq<char>>::empty().push(id@));
                    assert(self.seen_pairs() =~= old_pairs.push((key@, new_ids)));
                    lemma_assoc_push(old_pairs, key@, new_ids);
                    assert(!old(self)@.seen.contains_key(key@));
                    assert(Seq::<Seq<char>>::empty().push(id@) =~= marked(Seq::empty(), id@));
                }
                true
            },
        }
    }

    /// Drops every tracked live for which [`LIVE_TTL`] has passed since it was first seen,
    /// scheduled for, or started, whichever is latest.
    // A stream deleted before it ends is not cancelled on Discord; its live is just dropped after a week.
    pub fn prune_lives(&mut self, now: i64)
        requires
            old(self).wf(),
        ensures
            final(self).wf(),
            final(self)@.lives == pruned(old(self)@.lives, now),
            final(self)@.seen == old(self)@.seen,
            final(self)@.pending == old(self)@.pending,
            final(self)@.event_updates == old(self)@.event_updates,
    {
        let ghost old_pairs = self.live_pairs();
        let mut kept: Vec<LiveEntry> = Vec::new();
        let mut i: usize = 0;
        while i < self.lives.len()
            invariant
                i <= self.lives@.len(),
                self.live_pairs() == old_pairs,
                distinct_keys(old_pairs),
                forall|k: int| 0 <= k < kept@.len() ==> exists|j: int| 0 <= j < i && #[trigger] kept@[k].video@ == old_pairs[j].0
                    && kept@[k].live == old_pairs[j].1 && live_is_current(old_pairs[j].1, now),
                forall|j: int| 0 <= j < i && live_is_current(old_pairs[j].1, now) ==> exists|k: int| 0 <= k < kept@.len() && #[trigger] kept@[k].video@ == old_pairs[j].0,
                forall|a: int, b: int| 0 <= a < kept@.len() && 0 <= b < kept@.len() && a != b ==> kept@[a].video@ != kept@[b].video@,
            decreases self.lives@.len() - i,
        {
            let l = self.lives[i].live;
            let since = {
                let mut s = l.first_seen;
                match l.scheduled {
                    Some(t) => { if t > s { s = t; } },
                    None => { if 0 > s { s = 0; } },
                }
                match l.started {
                    Some(t) => { if t > s { s = t; } },
                    None => { if 0 > s { s = 0; } },
                }
                s
            };
            assert(old_pairs[i as int] == (self.lives@[i as int].video@, l));
            assert(since == live_since(l));
            if (now as i128) - (since as i128) < LIVE_TTL as i128 {
                let ghost before = kept@;
                kept.push(LiveEntry { video: self.lives[i].video.clone(), live: l });
                proof {
                    assert forall|a: int, b: int| 0 <= a < kept@.len() && 0 <= b < kept@.len() && a != b implies kept@[a].video@ != kept@[b].video@ by {
                        if a < before.len() && b < before.len() {
                        } else if a == before.len() {
                            let j = choose|j: int| 0 <= j < i && #[trigger] kept@[b].video@ == old_pairs[j].0 && kept@[b].live == old_pairs[j].1 && live_is_current(old_pairs[j].1, now);
                            assert(old_pairs[j].0 != old_pairs[i as int].0);
                        } else {
                            let j = choose|j: int| 0 <= j < i && #[trigger] kept@[a].video@ == old_pairs[j].0 && kept@[a].live == old_pairs[j].1 && live_is_current(old_pairs[j].1, now);
                            assert(old_pairs[j].0 != old_pairs[i as int].0);
                        }
                    }
                    assert(kept@[before.len() as int].video@ == old_pairs[i as int].0);
                    assert forall|k: int| 0 <= k < kept@.len() implies exists|j: int| 0 <= j < i + 1 && #[trigger] kept@[k].video@ == old_pairs[j].0
                        && kept@[k].live == old_pairs[j].1 && live_is_current(old_pairs[j].1, now) by {
                        if k < before.len() {
                            assert(kept@[k] == before[k]);
                        }
                    }
                    assert forall|j: int| 0 <= j < i + 1 && live_is_current(old_pairs[j].1, now) implies exists|k: int| 0 <= k < kept@.len() && #[trigger] kept@[k].video@ == old_pairs[j].0 by {
                        if j < i {
                            let k = choose|k: int| 0 <= k < before.len() && #[trigger] before[k].video@ == old_pairs[j].0;
                            assert(kept@[k] == before[k]);
                        } else {
                            assert(kept@[before.len() as int].video@ == old_pairs[j].0);
                        }
                    }
                }
            }
            i = i + 1;
        }
        self.lives = kept;
        proof {
            let np = self.live_pairs();
            assert(distinct_keys(np)) by {
                assert forall|a: int, b: int| 0 <= a < np.len() && 0 <= b < np.len() && a != b implies np[a].0 != np[b].0 by {
                    assert(np[a].0 == self.lives@[a].video@);
                    assert(np[b].0 == self.lives@[b].video@);
                }
            }
            let target = pruned(assoc_map(old_pairs), now);
            assert forall|k: Seq<char>| #[trigger] assoc_map(np).contains_key(k) == target.contains_key(k) by {
                if assoc_map(np).contains_key(k) {
                    let a = choose|a: int| 0 <= a < np.len() && np[a].0 == k;
                    assert(np[a].0 == self.lives@[a].video@);
                    let j = choose|j: int| 0 <= j < old_pairs.len() && #[trigger] self.lives@[a].video@ == old_pairs[j].0
                        && self.lives@[a].live == old_pairs[j].1 && live_is_current(old_pairs[j].1, now);
                    lemma_assoc_at(old_pairs, j);
                }
                if target.contains_key(k) {
                    let j = choose|j: int| 0 <= j < old_pairs.len() && old_pairs[j].0 == k;
                    lemma_assoc_at(old_pairs, j);
                    let a = choose|a: int| 0 <= a < self.lives@.len() && #[trigger] self.lives@[a].video@ == old_pairs[j].0;
                    assert(np[a].0 == k);
                }
            }
            assert forall|k: Seq<char>| #[trigger] assoc_map(np).contains_key(k) implies assoc_map(np)[k] == target[k] by {
                let a = choose|a: int| 0 <= a < np.len() && np[a].0 == k;
                assert(np[a] == (self.lives@[a].video@, self.lives@[a].live));
                lemma_assoc_at(np, a);
                let j = choose|j: int| 0 <= j < old_pairs.len() && #[trigger] self.lives@[a].video@ == old_pairs[j].0
                    && self.lives@[a].live == old_pairs[j].1 && live_is_current(old_pairs[j].1, now);
                lemma_assoc_at(old_pairs, j);
            }
            assert(assoc_map(np) =~= target);
        }
    }
}

impl State {
    /// Whether anything is remembered under `key`, even an empty list.
    pub fn has_seen_key(&self, key: &str) -> (r: bool)
        requires
            self.wf(),
        ensures
            r == self@.seen.contains_key(key@),
    {
        match self.seen_index(key) {
            Some(i) => {
                proof { lemma_assoc_at(self.seen_pairs(), i as int); }
                true
            },
            None => false,
        }
    }

    /// The IDs remembered under `key`, oldest first.
    pub fn seen_ids(&self, key: &str) -> (r: Option<&VecDeque<String>>)
        requires
            self.wf(),
        ensures
            r is Some <==> self@.seen.contains_key(key@),
            r matches Some(ids) ==> strings_view(ids@) == self@.seen[key@],
    {
        match self.seen_index(key) {
            Some(i) => {
                proof { lemma_assoc_at(self.seen_pairs(), i as int); }
                Some(&self.seen[i].ids)
            },
            None => None,
        }
    }

    /// The keys under which IDs are remembered.
    pub fn seen_keys(&self) -> (r: Vec<String>)
        requires
            self.wf(),
        ensures
            forall|k: Seq<char>| self@.seen.contains_key(k) <==> strings_view(r@).contains(k),
    {
        let mut r: Vec<String> = Vec::new();
        let mut i: usize = 0;
        while i < self.seen.len()
            invariant
                i <= self.seen@.len(),
                r@.len() == i,
                forall|k: int| 0 <= k < i ==> #[trigger] r@[k]@ == self.seen@[k].key@,
            decreases self.seen@.len() - i,
        {
            r.push(self.seen[i].key.clone());
            i = i + 1;
        }
        proof {
            let p = self.seen_pairs();
            assert forall|k: Seq<char>| self@.seen.contains_key(k) <==> strings_view(r@).contains(k) by {
                if self@.seen.contains_key(k) {
                    let a = choose|a: int| 0 <= a < p.len() && p[a].0 == k;
                    assert(strings_view(r@)[a] == k);
                }
                if strings_view(r@).contains(k) {
                    let a = choose|a: int| 0 <= a < strings_view(r@).len() && strings_view(r@)[a] == k;
                    assert(p[a].0 == k);
                }
            }
        }
        r
    }

    /// Replaces what is remembered under `key` by `ids`.
    pub fn set_seen_ids(&mut self, key: &str, ids: VecDeque<String>)
        requires
            old(self).wf(),
        ensures
            final(self).wf(),
            final(self)@.seen == old(self)@.seen.insert(key@, strings_view(ids@)),
            final(self)@.lives == old(self)@.lives,
            final(self)@.pending == old(self)@.pending,
            final(self)@.event_updates == old(self)@.event_updates,
    {
        let ghost old_pairs = self.seen_pairs();
        let ghost v = strings_view(ids@);
        match self.seen_index(key) {
            Some(i) => {
                self.seen.set(i, SeenEntry { key: key.to_owned(), ids });
                proof {
                    assert(self.seen_pairs() =~= old_pairs.update(i as int, (old_pairs[i as int].0, v)));
                    lemma_assoc_update(old_pairs, i as int, v);
                }
            },
            None => {
                self.seen.push(SeenEntry { key: key.to_owned(), ids });
                proof {
                    assert(self.seen_pairs() =~= old_pairs.push((key@, v)));
                    lemma_assoc_push(old_pairs, key@, v);
                }
            },
        }
    }

    /// Makes sure that `key` has a list, empty if it had none.
    pub fn ensure_seen_key(&mut self, key: &str)
        requires
            old(self).wf(),
        ensures
            final(self).wf(),
            final(self)@.seen == old(self)@.seen.insert(key@, old(self)@.seen_list(key@)),
            final(self)@.lives == old(self)@.lives,
            final(self)@.pending == old(self)@.pending,
            final(self)@.event_updates == old(self)@.event_updates,
    {
        if !self.has_seen_key(key) {
            self.set_seen_ids(key, VecDeque::new());
            assert(strings_view(Seq::<String>::empty()) =~= Seq::<Seq<char>>::empty());
        } else {
            assert(old(self)@.seen.insert(key@, old(self)@.seen_list(key@)) =~= old(self)@.seen);
        }
    }

    /// Forgets everything remembered under `key`.
    pub fn remove_seen_key(&mut self, key: &str)
        requires
            old(self).wf(),
        ensures
            final(self).wf(),
            final(self)@.seen == old(self)@.seen.remove(key@),
            final(self)@.lives == old(self)@.lives,
            final(self)@.pending == old(self)@.pending,
            final(self)@.event_updates == old(self)@.event_updates,
    {
        let ghost old_pairs = self.seen_pairs();
        match self.seen_index(key) {
            Some(i) => {
                self.seen.remove(i);
                proof {
                    assert(self.seen_pairs() =~= old_pairs.remove(i as int));
                    lemma_assoc_remove(old_pairs, i as int);
                }
            },
            None => {
                assert(old(self)@.seen.remove(key@) =~= old(self)@.seen);
            },
        }
    }

    /// The live tracked for `video`, if any.
    pub fn live(&self, video: &str) -> (r: Option<Live>)
        requires
            self.wf(),
        ensures
            r is Some <==> self@.lives.contains_key(video@),
            r matches Some(l) ==> l == self@.lives[video@],
    {
        match self.live_index(video) {
            Some(i) => {
                proof { lemma_assoc_at(self.live_pairs(), i as int); }
                Some(self.lives[i].live)
            },
            None => None,
        }
    }

    /// Tracks `video` as `live`, replacing what was tracked for it.
    pub fn insert_live(&mut self, video: &str, live: Live)
        requires
            old(self).wf(),
        ensures
            final(self).wf(),
            final(self)@.lives == old(self)@.lives.insert(video@, live),
            final(self)@.seen == old(self)@.seen,
            final(self)@.pending == old(self)@.pending,
            final(self)@.event_updates == old(self)@.event_updates,
    {
        let ghost old_pairs = self.live_pairs();
        match self.live_index(video) {
            Some(i) => {
                self.lives.set(i, LiveEntry { video: video.to_owned(), live });
                proof {
                    assert(self.live_pairs() =~= old_pairs.update(i as int, (old_pairs[i as int].0, live)));
                    lemma_assoc_update(old_pairs, i as int, live);
                }
            },
            None => {
                self.lives.push(LiveEntry { video: video.to_owned(), live });
                proof {
                    assert(self.live_pairs() =~= old_pairs.push((video@, live)));
                    lemma_assoc_push(old_pairs, video@, live);
                }
            },
        }
    }

    /// Stops tracking `video`.
    pub fn remove_live(&mut self, video: &str)
        requires
            old(self).wf(),
        ensures
            final(self).wf(),
            final(self)@.lives == old(self)@.lives.remove(video@),
            final(self)@.seen == old(self)@.seen,
            final(self)@.pending == old(self)@.pending,
            final(self)@.event_updates == old(self)@.event_updates,
    {
        let ghost old_pairs = self.live_pairs();
        match self.live_index(video) {
            Some(i) => {
                self.lives.remove(i);
                proof {
                    assert(self.live_pairs() =~= old_pairs.remove(i as int));
                    lemma_assoc_remove(old_pairs, i as int);
                }
            },
            None => {
                assert(old(self)@.lives.remove(video@) =~= old(self)@.lives);
            },
        }
    }

    /// The videos whose lives are tracked.
    pub fn live_ids(&self) -> (r: Vec<String>)
        requires
            self.wf(),
        ensures
            forall|k: Seq<char>| self@.lives.contains_key(k) <==> strings_view(r@).contains(k),
            strings_view(r@).no_duplicates(),
    {
        let mut r: Vec<String> = Vec::new();
        let mut i: usize = 0;
        while i < self.lives.len()
            invariant
                i <= self.lives@.len(),
                r@.len() == i,
                forall|k: int| 0 <= k < i ==> #[trigger] r@[k]@ == self.lives@[k].video@,
            decreases self.lives@.len() - i,
        {
            r.push(self.lives[i].video.clone());
            i = i + 1;
        }
        proof {
            let p = self.live_pairs();
            assert forall|k: Seq<char>| self@.lives.contains_key(k) <==> strings_view(r@).contains(k) by {
                if self@.lives.contains_key(k) {
                    let a = choose|a: int| 0 <= a < p.len() && p[a].0 == k;
                    assert(strings_view(r@)[a] == k);
                }
                if strings_view(r@).contains(k) {
                    let a = choose|a: int| 0 <= a < strings_view(r@).len() && strings_view(r@)[a] == k;
                    assert(p[a].0 == k);
                }
            }
            assert forall|a: int, b: int| 0 <= a < strings_view(r@).len() && 0 <= b < strings_view(r@).len() && a != b
                implies strings_view(r@)[a] != strings_view(r@)[b] by {
                assert(p[a].0 == strings_view(r@)[a]);
                assert(p[b].0 == strings_view(r@)[b]);
            }
        }
        r
    }

    /// How many lives are tracked.
    pub fn lives_len(&self) -> (r: usize)
        requires
            self.wf(),
        ensures
            r == self@.lives.len(),
    {
        proof { self.lemma_lives_len(); }
        self.lives.len()
    }

    proof fn lemma_lives_len(&self)
        requires
            self.wf(),
        ensures
            self@.lives.len() == self.lives@.len(),
            self@.lives.dom().finite(),
    {
        let p = self.live_pairs();
        let keys = p.map_values(|e: (Seq<char>, Live)| e.0);
        assert forall|k: Seq<char>| #[trigger] self@.lives.dom().contains(k) <==> keys.contains(k) by {
            if self@.lives.dom().contains(k) {
                let a = choose|a: int| 0 <= a < p.len() && p[a].0 == k;
                assert(keys[a] == k);
            }
            if keys.contains(k) {
                let a = choose|a: int| 0 <= a < keys.len() && keys[a] == k;
                assert(p[a].0 == k);
            }
        }
        assert(self@.lives.dom() =~= keys.to_set());
        assert(keys.no_duplicates()) by {
            assert forall|a: int, b: int| 0 <= a < keys.len() && 0 <= b < keys.len() && a != b implies keys[a] != keys[b] by {
                assert(keys[a] == p[a].0);
                assert(keys[b] == p[b].0);
            }
        }
        keys.unique_seq_to_set();
    }
}

impl State {
    /// Queues a delivery behind those already waiting.
    pub fn push_delivery(&mut self, d: Delivery)
        requires
            old(self).wf(),
        ensures
            final(self).wf(),
            final(self)@ == (StateView { pending: old(self)@.pending.push(d@), ..old(self)@ }),
    {
        self.pending.push_back(d);
        assert(self@.pending =~= old(self)@.pending.push(d@));
    }

    /// Queues an event update behind those already waiting.
    pub fn push_event_update(&mut self, u: EventUpdate)
        requires
            old(self).wf(),
        ensures
            final(self).wf(),
            final(self)@ == (StateView { event_updates: old(self)@.event_updates.push(u), ..old(self)@ }),
    {
        self.event_updates.push_back(u);
    }

    /// The queued deliveries, oldest first.
    pub fn pending(&self) -> (r: &VecDeque<Delivery>)
        ensures
            r@.map_values(|d: Delivery| d@) == self@.pending,
    {
        &self.pending
    }

    /// The queued event updates, oldest first.
    pub fn event_updates(&self) -> (r: &VecDeque<EventUpdate>)
        ensures
            r@ == self@.event_updates,
    {
        &self.event_updates
    }

    /// Drops the delivery at position `i`.
    pub fn remove_pending(&mut self, i: usize)
        requires
            old(self).wf(),
            i < old(self)@.pending.len(),
        ensures
            final(self).wf(),
            final(self)@ == (StateView { pending: old(self)@.pending.remove(i as int), ..old(self)@ }),
    {
        self.pending.remove(i);
        assert(self@.pending =~= old(self)@.pending.remove(i as int));
    }

    /// Drops the event update at position `i`.
    pub fn remove_event_update(&mut self, i: usize)
        requires
            old(self).wf(),
            i < old(self)@.event_updates.len(),
        ensures
            final(self).wf(),
            final(self)@ == (StateView { event_updates: old(self)@.event_updates.remove(i as int), ..old(self)@ }),
    {
        self.event_updates.remove(i);
    }
}

impl Default for State {
    fn default() -> (s: State)
        ensures
            s.wf(),
            s@.seen == Map::<Seq<char>, Seq<Seq<char>>>::empty(),
            s@.lives == Map::<Seq<char>, Live>::empty(),
            s@.pending == Seq::<DeliveryView>::empty(),
            s@.event_updates == Seq::<EventUpdate>::empty(),
    {
        State::new()
    }
}

} // verus!
