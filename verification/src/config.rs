//! Which Discord channels get which Threads/YouTube sources, and the rules a configuration must obey.
use vstd::prelude::*;
use crate::text::{ascii_lower, chars_lt, chars_of, join2, lead_char, lead_ws, trail_ws, white_space, lemma_str_lt_asymmetric, lemma_str_lt_irreflexive, lemma_str_lt_total, lemma_str_lt_transitive, lower_ascii, skip_leading, str_eq, str_lt, string_of, to_lower_ascii, trim_chars, trimmed};

verus! {

/// Text put in front of every notice: one string for all kinds, or one per kind
/// (`threads`, `video`, `scheduled`, `live`, `end`); kinds that are missing get nothing.
pub enum Prefix {
    All(String),
    ByKind(Vec<(String, String)>),
}

pub enum PrefixView {
    All(Seq<char>),
    ByKind(Seq<(Seq<char>, Seq<char>)>),
}

impl View for Prefix {
    type V = PrefixView;

    open spec fn view(&self) -> PrefixView {
        match self {
            Prefix::All(s) => PrefixView::All(s@),
            Prefix::ByKind(m) => PrefixView::ByKind(m@.map_values(|e: (String, String)| (e.0@, e.1@))),
        }
    }
}

/// One Discord channel and the sources it subscribes to.
pub struct Target {
    pub channel_id: u64,
    pub threads: Vec<String>,
    pub youtube: Vec<String>,
    pub prefix: Option<Prefix>,
}

pub struct TargetView {
    pub channel_id: u64,
    pub threads: Seq<Seq<char>>,
    pub youtube: Seq<Seq<char>>,
    pub prefix: Option<PrefixView>,
}

pub open spec fn strings_of(v: Seq<String>) -> Seq<Seq<char>> {
    v.map_values(|s: String| s@)
}

pub open spec fn prefix_view(p: Option<Prefix>) -> Option<PrefixView> {
    match p {
        Some(x) => Some(x@),
        None => None,
    }
}

impl View for Target {
    type V = TargetView;

    open spec fn view(&self) -> TargetView {
        TargetView {
            channel_id: self.channel_id,
            threads: strings_of(self.threads@),
            youtube: strings_of(self.youtube@),
            prefix: prefix_view(self.prefix),
        }
    }
}

pub struct Config {
    pub guild_id: u64,
    pub threads_interval_secs: u64,
    pub youtube_interval_secs: u64,
    pub targets: Vec<Target>,
}

pub struct ConfigView {
    pub guild_id: u64,
    pub threads_interval_secs: u64,
    pub youtube_interval_secs: u64,
    pub targets: Seq<TargetView>,
}

impl View for Config {
    type V = ConfigView;

    open spec fn view(&self) -> ConfigView {
        ConfigView {
            guild_id: self.guild_id,
            threads_interval_secs: self.threads_interval_secs,
            youtube_interval_secs: self.youtube_interval_secs,
            targets: self.targets@.map_values(|t: Target| t@),
        }
    }
}

/// Why a configuration is refused before the bot starts.
#[derive(Clone, Copy, Debug, PartialEq, Eq, Structural)]
pub enum ConfigError {
    ZeroId,
    ZeroInterval,
    BadThreadsUser,
    BadYoutubeChannel,
    DuplicateSource,
}

impl ConfigError {
    pub fn message(&self) -> (r: String)
        ensures
            r@ == (match self {
                ConfigError::ZeroId => "guild_id and channel_id must be nonzero Discord IDs"@,
                ConfigError::ZeroInterval => "poll intervals must be greater than zero"@,
                ConfigError::BadThreadsUser => "Threads sources must be usernames, not URLs"@,
                ConfigError::BadYoutubeChannel => "YouTube sources must be 24-character UC channel IDs"@,
                ConfigError::DuplicateSource => "a source must not be subscribed twice in the same channel"@,
            }),
    {
        match self {
            ConfigError::ZeroId => "guild_id and channel_id must be nonzero Discord IDs".to_owned(),
            ConfigError::ZeroInterval => "poll intervals must be greater than zero".to_owned(),
            ConfigError::BadThreadsUser => "Threads sources must be usernames, not URLs".to_owned(),
            ConfigError::BadYoutubeChannel => "YouTube sources must be 24-character UC channel IDs".to_owned(),
            ConfigError::DuplicateSource => "a source must not be subscribed twice in the same channel".to_owned(),
        }
    }
}

/// A Threads username as it is compared and polled: white space trimmed, leading `@`s
/// removed, ASCII letters lowered.
pub open spec fn normalize_user(u: Seq<char>) -> Seq<char> {
    let t = trimmed(u);
    lower_ascii(t.skip(lead_char(t, '@') as int))
}

pub open spec fn ascii_alnum(c: char) -> bool {
    ('a' <= c <= 'z') || ('A' <= c <= 'Z') || ('0' <= c <= '9')
}

pub open spec fn valid_user(u: Seq<char>) -> bool {
    &&& u.len() > 0
    &&& forall|i: int| 0 <= i < u.len() ==> ascii_alnum(#[trigger] u[i]) || u[i] == '_' || u[i] == '.'
}

pub open spec fn valid_youtube(c: Seq<char>) -> bool {
    &&& c.len() == 24
    &&& c[0] == 'U' && c[1] == 'C'
    &&& forall|i: int| 0 <= i < c.len() ==> ascii_alnum(#[trigger] c[i]) || c[i] == '_' || c[i] == '-'
}

/// One subscription of one channel to one source, in the order `validate` examines them.
pub enum Check {
    Threads { channel: u64, user: Seq<char> },
    Youtube { channel: u64, id: Seq<char> },
}

pub open spec fn thread_checks(t: TargetView) -> Seq<Check> {
    t.threads.map_values(|u: Seq<char>| Check::Threads { channel: t.channel_id, user: normalize_user(u) })
}

pub open spec fn youtube_checks(t: TargetView) -> Seq<Check> {
    t.youtube.map_values(|y: Seq<char>| Check::Youtube { channel: t.channel_id, id: y })
}

pub open spec fn all_checks(ts: Seq<TargetView>) -> Seq<Check>
    decreases ts.len(),
{
    if ts.len() == 0 {
        Seq::empty()
    } else {
        all_checks(ts.drop_last()) + thread_checks(ts.last()) + youtube_checks(ts.last())
    }
}

/// What is wrong with subscription `c` given the subscriptions examined before it.
pub open spec fn check_error(prev: Seq<Check>, c: Check) -> Option<ConfigError> {
    match c {
        Check::Threads { user, .. } => if !valid_user(user) {
            Some(ConfigError::BadThreadsUser)
        } else if prev.contains(c) {
            Some(ConfigError::DuplicateSource)
        } else {
            None
        },
        Check::Youtube { id, .. } => if !valid_youtube(id) {
            Some(ConfigError::BadYoutubeChannel)
        } else if prev.contains(c) {
            Some(ConfigError::DuplicateSource)
        } else {
            None
        },
    }
}

/// The problem with the first subscription that has one.
pub open spec fn first_error(cs: Seq<Check>) -> Option<ConfigError>
    decreases cs.len(),
{
    if cs.len() == 0 {
        None
    } else {
        match first_error(cs.drop_last()) {
            Some(e) => Some(e),
            None => check_error(cs.drop_last(), cs.last()),
        }
    }
}

pub open spec fn validate_spec(c: ConfigView) -> Result<(), ConfigError> {
    if c.guild_id == 0 || exists|i: int| 0 <= i < c.targets.len() && #[trigger] c.targets[i].channel_id == 0 {
        Err(ConfigError::ZeroId)
    } else if c.threads_interval_secs == 0 || c.youtube_interval_secs == 0 {
        Err(ConfigError::ZeroInterval)
    } else {
        match first_error(all_checks(c.targets)) {
            Some(e) => Err(e),
            None => Ok(()),
        }
    }
}

pub open spec fn normalized_target(t: TargetView) -> TargetView {
    TargetView { threads: t.threads.map_values(|u: Seq<char>| normalize_user(u)), ..t }
}

/// The configuration with every Threads username normalized.
pub open spec fn normalized(c: ConfigView) -> ConfigView {
    ConfigView { targets: c.targets.map_values(|t: TargetView| normalized_target(t)), ..c }
}

/// Normalizing a username whose normal form is valid gives that normal form back.
pub proof fn law_normal_user_is_stable(u: Seq<char>)
    requires
        valid_user(normalize_user(u)),
    ensures
        normalize_user(normalize_user(u)) == normalize_user(u),
{
    let x = normalize_user(u);
    let t = trimmed(u);
    let l = t.skip(lead_char(t, '@') as int);
    assert(x == lower_ascii(l));
    assert(!white_space(x[0]));
    assert(!white_space(x[x.len() - 1]));
    assert(lead_ws(x) == 0);
    assert(x.skip(0) =~= x);
    assert(trail_ws(x) == 0);
    assert(x.take(x.len() as int) =~= x);
    assert(trimmed(x) == x);
    assert(lead_char(x, '@') == 0);
    assert forall|i: int| 0 <= i < x.len() implies ascii_lower(#[trigger] x[i]) == x[i] by {
        assert(x[i] == ascii_lower(l[i]));
    }
    assert(lower_ascii(x) =~= x);
}

proof fn lemma_no_error_before(cs: Seq<Check>, m: int)
    requires
        first_error(cs) is None,
        0 <= m <= cs.len(),
    ensures
        first_error(cs.take(m)) is None,
        m < cs.len() ==> check_error(cs.take(m), cs[m]) is None,
    decreases cs.len(),
{
    if m < cs.len() {
        if m == cs.len() - 1 {
            assert(cs.take(m) =~= cs.drop_last());
        } else {
            lemma_no_error_before(cs.drop_last(), m);
            assert(cs.drop_last().take(m) =~= cs.take(m));
        }
    } else {
        assert(cs.take(m) =~= cs);
    }
}

proof fn lemma_checked_users_are_valid(ts: Seq<TargetView>)
    requires
        first_error(all_checks(ts)) is None,
    ensures
        forall|i: int, j: int| 0 <= i < ts.len() && 0 <= j < ts[i].threads.len() ==> valid_user(normalize_user(#[trigger] ts[i].threads[j])),
    decreases ts.len(),
{
    if ts.len() > 0 {
        let rest = ts.drop_last();
        let t = ts.last();
        let a = all_checks(rest);
        let full = all_checks(ts);
        assert(full == a + thread_checks(t) + youtube_checks(t));
        lemma_no_error_before(full, a.len() as int);
        assert(full.take(a.len() as int) =~= a);
        lemma_checked_users_are_valid(rest);
        assert forall|j: int| 0 <= j < t.threads.len() implies valid_user(normalize_user(#[trigger] t.threads[j])) by {
            lemma_no_error_before(full, a.len() + j);
            assert(full[a.len() + j] == thread_checks(t)[j]);
        }
        assert forall|i: int, j: int| 0 <= i < ts.len() && 0 <= j < ts[i].threads.len() implies valid_user(normalize_user(#[trigger] ts[i].threads[j])) by {
            if i < rest.len() {
                assert(ts[i] == rest[i]);
            }
        }
    }
}

proof fn lemma_checks_of_normalized(ts: Seq<TargetView>)
    requires
        forall|i: int, j: int| 0 <= i < ts.len() && 0 <= j < ts[i].threads.len() ==> valid_user(normalize_user(#[trigger] ts[i].threads[j])),
    ensures
        all_checks(ts.map_values(|t: TargetView| normalized_target(t))) == all_checks(ts),
    decreases ts.len(),
{
    if ts.len() > 0 {
        let rest = ts.drop_last();
        let t = ts.last();
        let n = ts.map_values(|t: TargetView| normalized_target(t));
        assert(n.drop_last() =~= rest.map_values(|t: TargetView| normalized_target(t)));
        assert forall|i: int, j: int| 0 <= i < rest.len() && 0 <= j < rest[i].threads.len() implies valid_user(normalize_user(#[trigger] rest[i].threads[j])) by {
            assert(ts[i] == rest[i]);
        }
        lemma_checks_of_normalized(rest);
        assert forall|j: int| 0 <= j < t.threads.len() implies normalize_user(normalize_user(#[trigger] t.threads[j])) == normalize_user(t.threads[j]) by {
            assert(ts[ts.len() - 1] == t);
            law_normal_user_is_stable(t.threads[j]);
        }
        assert(thread_checks(n.last()) =~= thread_checks(t));
        assert(youtube_checks(n.last()) =~= youtube_checks(t));
    }
}

/// Validation is idempotent: a configuration that passes passes again once normalized, and
/// normalizing it again changes nothing.
pub proof fn law_validation_is_idempotent(c: ConfigView)
    requires
        validate_spec(c) is Ok,
    ensures
        validate_spec(normalized(c)) is Ok,
        normalized(normalized(c)) == normalized(c),
{
    let ts = c.targets;
    let n = normalized(c).targets;
    lemma_checked_users_are_valid(ts);
    lemma_checks_of_normalized(ts);
    assert forall|i: int| 0 <= i < n.len() implies #[trigger] n[i].channel_id != 0 by {
        assert(n[i].channel_id == ts[i].channel_id);
    }
    assert forall|i: int| 0 <= i < n.len() implies #[trigger] normalized_target(n[i]) == n[i] by {
        let t = ts[i];
        assert forall|j: int| 0 <= j < t.threads.len() implies normalize_user(normalize_user(#[trigger] t.threads[j])) == normalize_user(t.threads[j]) by {
            law_normal_user_is_stable(t.threads[j]);
        }
        assert(normalized_target(n[i]).threads =~= n[i].threads);
    }
    assert(normalized(normalized(c)).targets =~= n);
}

struct CheckKey {
    threads: bool,
    channel: u64,
    key: String,
}

impl View for CheckKey {
    type V = Check;

    closed spec fn view(&self) -> Check {
        if self.threads {
            Check::Threads { channel: self.channel, user: self.key@ }
        } else {
            Check::Youtube { channel: self.channel, id: self.key@ }
        }
    }
}

fn check_keys_contain(done: &Vec<CheckKey>, k: &CheckKey) -> (r: bool)
    ensures
        r == done@.map_values(|c: CheckKey| c@).contains(k@),
{
    let ghost dv = done@.map_values(|c: CheckKey| c@);
    let mut i: usize = 0;
    while i < done.len()
        invariant
            i <= done@.len(),
            dv == done@.map_values(|c: CheckKey| c@),
            forall|j: int| 0 <= j < i ==> dv[j] != k@,
        decreases done@.len() - i,
    {
        let d = &done[i];
        if d.threads == k.threads && d.channel == k.channel && str_eq(d.key.as_str(), k.key.as_str()) {
            assert(dv[i as int] == k@);
            return true;
        }
        assert(dv[i as int] != k@);
        i = i + 1;
    }
    false
}

fn normalize_user_chars(u: &str) -> (r: Vec<char>)
    ensures
        r@ == normalize_user(u@),
{
    let cs = chars_of(u);
    let t = trim_chars(&cs);
    let s = skip_leading(&t, '@');
    to_lower_ascii(&s)
}

fn is_ascii_alnum(c: char) -> (r: bool)
    ensures
        r == ascii_alnum(c),
{
    ('a' <= c && c <= 'z') || ('A' <= c && c <= 'Z') || ('0' <= c && c <= '9')
}

fn user_is_valid(u: &Vec<char>) -> (r: bool)
    ensures
        r == valid_user(u@),
{
    if u.len() == 0 {
        return false;
    }
    let mut i: usize = 0;
    while i < u.len()
        invariant
            i <= u@.len(),
            forall|k: int| 0 <= k < i ==> ascii_alnum(#[trigger] u@[k]) || u@[k] == '_' || u@[k] == '.',
        decreases u@.len() - i,
    {
        let c = u[i];
        if !(is_ascii_alnum(c) || c == '_' || c == '.') {
            return false;
        }
        i = i + 1;
    }
    true
}

fn youtube_is_valid(c: &Vec<char>) -> (r: bool)
    ensures
        r == valid_youtube(c@),
{
    if c.len() != 24 || c[0] != 'U' || c[1] != 'C' {
        return false;
    }
    let mut i: usize = 0;
    while i < c.len()
        invariant
            i <= c@.len(),
            forall|k: int| 0 <= k < i ==> ascii_alnum(#[trigger] c@[k]) || c@[k] == '_' || c@[k] == '-',
        decreases c@.len() - i,
    {
        let x = c[i];
        if !(is_ascii_alnum(x) || x == '_' || x == '-') {
            return false;
        }
        i = i + 1;
    }
    true
}

proof fn lemma_all_checks_step(ts: Seq<TargetView>, i: int)
    requires
        0 <= i < ts.len(),
    ensures
        all_checks(ts.take(i + 1)) == all_checks(ts.take(i)) + thread_checks(ts[i]) + youtube_checks(ts[i]),
{
    assert(ts.take(i + 1).drop_last() =~= ts.take(i));
}

proof fn lemma_first_error_push(cs: Seq<Check>, c: Check)
    ensures
        first_error(cs.push(c)) == (match first_error(cs) {
            Some(e) => Some(e),
            None => check_error(cs, c),
        }),
{
    assert(cs.push(c).drop_last() =~= cs);
}

impl Config {
    /// Checks the configuration and normalizes its Threads usernames: IDs must be nonzero, poll
    /// intervals positive, Threads sources usernames, YouTube sources 24-character `UC` channel IDs,
    /// and no channel may subscribe to the same source twice (Threads usernames compared after
    /// normalizing). On an error nothing is changed.
    pub fn validate(&mut self) -> (r: Result<(), ConfigError>)
        ensures
            r == validate_spec(old(self)@),
            r is Ok ==> final(self)@ == normalized(old(self)@),
            r is Err ==> final(self)@ == old(self)@,
    {
        let ghost c0 = self@;
        let ghost ts = self@.targets;
        if self.guild_id == 0 {
            return Err(ConfigError::ZeroId);
        }
        let mut i: usize = 0;
        while i < self.targets.len()
            invariant
                i <= self.targets@.len(),
                ts == self@.targets,
                forall|k: int| 0 <= k < i ==> #[trigger] ts[k].channel_id != 0,
            decreases self.targets@.len() - i,
        {
            if self.targets[i].channel_id == 0 {
                assert(ts[i as int].channel_id == 0);
                return Err(ConfigError::ZeroId);
            }
            i = i + 1;
        }
        if self.threads_interval_secs == 0 || self.youtube_interval_secs == 0 {
            return Err(ConfigError::ZeroInterval);
        }
        let mut done: Vec<CheckKey> = Vec::new();
        let mut i: usize = 0;
        assert(ts.take(0) =~= Seq::<TargetView>::empty());
        while i < self.targets.len()
            invariant
                i <= self.targets@.len(),
                ts == self@.targets,
                self@ == c0,
                ts == c0.targets,
                c0.guild_id != 0,
                c0.threads_interval_secs != 0 && c0.youtube_interval_secs != 0,
                forall|k: int| 0 <= k < ts.len() ==> #[trigger] ts[k].channel_id != 0,
                done@.map_values(|c: CheckKey| c@) == all_checks(ts.take(i as int)),
                first_error(all_checks(ts.take(i as int))) is None,
            decreases self.targets@.len() - i,
        {
            let t = &self.targets[i];
            let ghost tv = ts[i as int];
            assert(tv == t@);
            let ghost base = all_checks(ts.take(i as int));
            let mut j: usize = 0;
            assert(thread_checks(tv).take(0) =~= Seq::<Check>::empty());
            assert(base + Seq::<Check>::empty() =~= base);
            while j < t.threads.len()
                invariant
                    j <= t.threads@.len(),
                    tv == t@,
                    self@ == c0,
                    ts == c0.targets,
                    c0.guild_id != 0,
                    c0.threads_interval_secs != 0 && c0.youtube_interval_secs != 0,
                    forall|k: int| 0 <= k < ts.len() ==> #[trigger] ts[k].channel_id != 0,
                    0 <= i < ts.len(),
                    tv == ts[i as int],
                    base == all_checks(ts.take(i as int)),
                    done@.map_values(|c: CheckKey| c@) == base + thread_checks(tv).take(j as int),
                    first_error(base + thread_checks(tv).take(j as int)) is None,
                decreases t.threads@.len() - j,
            {
                let n = normalize_user_chars(t.threads[j].as_str());
                let ghost prev = base + thread_checks(tv).take(j as int);
                assert(thread_checks(tv)[j as int] == Check::Threads { channel: t.channel_id, user: n@ });
                assert(prev + seq![thread_checks(tv)[j as int]] =~= base + thread_checks(tv).take(j as int + 1));
                assert(prev.push(thread_checks(tv)[j as int]) =~= base + thread_checks(tv).take(j as int + 1));
                proof { lemma_first_error_push(prev, thread_checks(tv)[j as int]); }
                if !user_is_valid(&n) {
                    proof { lemma_all_checks_step(ts, i as int); assert(all_checks(ts.take(i as int + 1)).take(prev.len() as int + 1) =~= prev.push(thread_checks(tv)[j as int])); lemma_error_persists(ts, i as int, prev.push(thread_checks(tv)[j as int]), ConfigError::BadThreadsUser); }
                    return Err(ConfigError::BadThreadsUser);
                }
                let ck = CheckKey { threads: true, channel: t.channel_id, key: string_of(n.as_slice()) };
                if check_keys_contain(&done, &ck) {
                    proof { lemma_all_checks_step(ts, i as int); assert(all_checks(ts.take(i as int + 1)).take(prev.len() as int + 1) =~= prev.push(thread_checks(tv)[j as int])); lemma_error_persists(ts, i as int, prev.push(thread_checks(tv)[j as int]), ConfigError::DuplicateSource); }
                    return Err(ConfigError::DuplicateSource);
                }
                done.push(ck);
                assert(done@.map_values(|c: CheckKey| c@) =~= prev.push(thread_checks(tv)[j as int]));
                j = j + 1;
            }
            assert(thread_checks(tv).take(j as int) =~= thread_checks(tv));
            let ghost base2 = base + thread_checks(tv);
            let mut j: usize = 0;
            assert(base2 + youtube_checks(tv).take(0) =~= base2);
            while j < t.youtube.len()
                invariant
                    j <= t.youtube@.len(),
                    tv == t@,
                    self@ == c0,
                    ts == c0.targets,
                    c0.guild_id != 0,
                    c0.threads_interval_secs != 0 && c0.youtube_interval_secs != 0,
                    forall|k: int| 0 <= k < ts.len() ==> #[trigger] ts[k].channel_id != 0,
                    0 <= i < ts.len(),
                    tv == ts[i as int],
                    base2 == all_checks(ts.take(i as int)) + thread_checks(tv),
                    done@.map_values(|c: CheckKey| c@) == base2 + youtube_checks(tv).take(j as int),
                    first_error(base2 + youtube_checks(tv).take(j as int)) is None,
                decreases t.youtube@.len() - j,
            {
                let y = chars_of(t.youtube[j].as_str());
                let ghost prev = base2 + youtube_checks(tv).take(j as int);
                assert(youtube_checks(tv)[j as int] == Check::Youtube { channel: t.channel_id, id: y@ });
                assert(prev.push(youtube_checks(tv)[j as int]) =~= base2 + youtube_checks(tv).take(j as int + 1));
                proof { lemma_first_error_push(prev, youtube_checks(tv)[j as int]); }
                if !youtube_is_valid(&y) {
                    proof { lemma_all_checks_step(ts, i as int); assert(all_checks(ts.take(i as int + 1)).take(prev.len() as int + 1) =~= prev.push(youtube_checks(tv)[j as int])); lemma_error_persists(ts, i as int, prev.push(youtube_checks(tv)[j as int]), ConfigError::BadYoutubeChannel); }
                    return Err(ConfigError::BadYoutubeChannel);
                }
                let ck = CheckKey { threads: false, channel: t.channel_id, key: t.youtube[j].clone() };
                if check_keys_contain(&done, &ck) {
                    proof { lemma_all_checks_step(ts, i as int); assert(all_checks(ts.take(i as int + 1)).take(prev.len() as int + 1) =~= prev.push(youtube_checks(tv)[j as int])); lemma_error_persists(ts, i as int, prev.push(youtube_checks(tv)[j as int]), ConfigError::DuplicateSource); }
                    return Err(ConfigError::DuplicateSource);
                }
                done.push(ck);
                assert(done@.map_values(|c: CheckKey| c@) =~= prev.push(youtube_checks(tv)[j as int]));
                j = j + 1;
            }
            assert(youtube_checks(tv).take(j as int) =~= youtube_checks(tv));
            proof { lemma_all_checks_step(ts, i as int); }
            i = i + 1;
        }
        assert(ts.take(ts.len() as int) =~= ts);
        self.normalize_all();
        Ok(())
    }

    fn normalize_all(&mut self)
        ensures
            final(self)@ == normalized(old(self)@),
    {
        let ghost c0 = self@;
        let mut i: usize = 0;
        while i < self.targets.len()
            invariant
                i <= self.targets@.len(),
                self.targets@.len() == c0.targets.len(),
                self.guild_id == c0.guild_id,
                self.threads_interval_secs == c0.threads_interval_secs,
                self.youtube_interval_secs == c0.youtube_interval_secs,
                forall|k: int| 0 <= k < i ==> #[trigger] self.targets@[k]@ == normalized_target(c0.targets[k]),
                forall|k: int| i <= k < self.targets@.len() ==> #[trigger] self.targets@[k]@ == c0.targets[k],
            decreases self.targets@.len() - i,
        {
            let mut nt: Vec<String> = Vec::new();
            let mut j: usize = 0;
            let ghost tv = c0.targets[i as int];
            while j < self.targets[i].threads.len()
                invariant
                    i < self.targets@.len(),
                    self.targets@[i as int]@ == tv,
                    j <= tv.threads.len(),
                    strings_of(nt@) == tv.threads.take(j as int).map_values(|u: Seq<char>| normalize_user(u)),
                decreases tv.threads.len() - j,
            {
                let n = normalize_user_chars(self.targets[i].threads[j].as_str());
                assert(tv.threads[j as int] == self.targets@[i as int].threads@[j as int]@);
                let ghost before = strings_of(nt@);
                nt.push(string_of(n.as_slice()));
                assert(strings_of(nt@) =~= before.push(n@));
                assert(tv.threads.take(j as int + 1) =~= tv.threads.take(j as int).push(tv.threads[j as int]));
                assert(strings_of(nt@) =~= tv.threads.take(j as int + 1).map_values(|u: Seq<char>| normalize_user(u)));
                j = j + 1;
            }
            assert(tv.threads.take(j as int) =~= tv.threads);
            self.targets[i].threads = nt;
            assert(self.targets@[i as int]@ =~= normalized_target(tv)) by {
                assert(strings_of(self.targets@[i as int].threads@) =~= tv.threads.map_values(|u: Seq<char>| normalize_user(u)));
            }
            i = i + 1;
        }
        assert(self@.targets =~= normalized(c0).targets);
    }
}

/// A problem found in a prefix of the subscriptions is the configuration's first problem.
proof fn lemma_first_error_prefix(a: Seq<Check>, b: Seq<Check>, e: ConfigError)
    requires
        a.len() <= b.len(),
        b.take(a.len() as int) == a,
        first_error(a) == Some(e),
    ensures
        first_error(b) == Some(e),
    decreases b.len() - a.len(),
{
    if b.len() == a.len() {
        assert(b =~= a);
    } else {
        assert(b.drop_last().take(a.len() as int) =~= a);
        lemma_first_error_prefix(a, b.drop_last(), e);
    }
}

proof fn lemma_all_checks_prefix(ts: Seq<TargetView>, n: int, m: int)
    requires
        0 <= n <= m <= ts.len(),
    ensures
        all_checks(ts.take(n)).len() <= all_checks(ts.take(m)).len(),
        all_checks(ts.take(m)).take(all_checks(ts.take(n)).len() as int) == all_checks(ts.take(n)),
    decreases m - n,
{
    if m == n {
        assert(all_checks(ts.take(m)).take(all_checks(ts.take(n)).len() as int) =~= all_checks(ts.take(n)));
    } else {
        lemma_all_checks_prefix(ts, n, m - 1);
        lemma_all_checks_step(ts, m - 1);
        let a = all_checks(ts.take(n));
        let b = all_checks(ts.take(m - 1));
        assert(all_checks(ts.take(m)).take(a.len() as int) =~= b.take(a.len() as int));
    }
}

/// Once a prefix of target `i`'s subscriptions shows a problem, validation reports it.
proof fn lemma_error_persists(ts: Seq<TargetView>, i: int, p: Seq<Check>, e: ConfigError)
    requires
        0 <= i < ts.len(),
        first_error(p) == Some(e),
        p.len() <= all_checks(ts.take(i + 1)).len(),
        all_checks(ts.take(i + 1)).take(p.len() as int) == p,
    ensures
        first_error(all_checks(ts)) == Some(e),
{
    lemma_first_error_prefix(p, all_checks(ts.take(i + 1)), e);
    lemma_all_checks_prefix(ts, i + 1, ts.len() as int);
    assert(ts.take(ts.len() as int) =~= ts);
    lemma_first_error_prefix(all_checks(ts.take(i + 1)), all_checks(ts), e);
}

/// The value stored for `k`: the first pair with that key.
pub open spec fn lookup(m: Seq<(Seq<char>, Seq<char>)>, k: Seq<char>) -> Option<Seq<char>>
    decreases m.len(),
{
    if m.len() == 0 {
        None
    } else if m[0].0 == k {
        Some(m[0].1)
    } else {
        lookup(m.drop_first(), k)
    }
}

/// The prefix configured for notices of `kind`, empty where none is.
pub open spec fn chosen_prefix(p: Option<PrefixView>, kind: Seq<char>) -> Seq<char> {
    match p {
        None => Seq::empty(),
        Some(PrefixView::All(s)) => s,
        Some(PrefixView::ByKind(m)) => match lookup(m, kind) {
            Some(s) => s,
            None => Seq::empty(),
        },
    }
}

/// The text put in front of a notice: the chosen prefix and a space, or nothing.
pub open spec fn prefix_text(p: Option<PrefixView>, kind: Seq<char>) -> Seq<char> {
    if chosen_prefix(p, kind).len() == 0 {
        Seq::empty()
    } else {
        chosen_prefix(p, kind) + " "@
    }
}

impl Target {
    pub fn new(channel_id: u64, threads: Vec<String>, youtube: Vec<String>, prefix: Option<Prefix>) -> (t: Target)
        ensures
            t.channel_id == channel_id,
            t.threads == threads,
            t.youtube == youtube,
            t.prefix == prefix,
    {
        Target { channel_id, threads, youtube, prefix }
    }

    /// Prefix for a notice kind, already followed by a space when non-empty.
    pub fn prefix(&self, kind: &str) -> (r: String)
        ensures
            r@ == prefix_text(self@.prefix, kind@),
    {
        let chosen: Option<&String> = match &self.prefix {
            None => None,
            Some(Prefix::All(s)) => Some(s),
            Some(Prefix::ByKind(m)) => lookup_kind(m, kind),
        };
        match chosen {
            Some(p) => {
                assert(p@ == chosen_prefix(self@.prefix, kind@));
                if p.as_str().is_empty() {
                    String::new()
                } else {
                    join2(p.as_str(), " ")
                }
            },
            None => {
                assert(chosen_prefix(self@.prefix, kind@) == Seq::<char>::empty());
                String::new()
            },
        }
    }
}

fn lookup_kind<'a>(m: &'a Vec<(String, String)>, kind: &str) -> (r: Option<&'a String>)
    ensures
        match r {
            Some(s) => lookup(m@.map_values(|e: (String, String)| (e.0@, e.1@)), kind@) == Some(s@),
            None => lookup(m@.map_values(|e: (String, String)| (e.0@, e.1@)), kind@) is None,
        },
{
    let ghost mv = m@.map_values(|e: (String, String)| (e.0@, e.1@));
    let mut i: usize = 0;
    assert(mv.skip(0) =~= mv);
    while i < m.len()
        invariant
            i <= m@.len(),
            mv == m@.map_values(|e: (String, String)| (e.0@, e.1@)),
            lookup(mv, kind@) == lookup(mv.skip(i as int), kind@),
        decreases m@.len() - i,
    {
        assert(mv.skip(i as int)[0] == mv[i as int]);
        if str_eq(m[i].0.as_str(), kind) {
            return Some(&m[i].1);
        }
        assert(mv.skip(i as int).drop_first() =~= mv.skip(i as int + 1));
        i = i + 1;
    }
    None
}

/// The targets, in order, whose Threads sources include `user`.
pub open spec fn threads_subscribers(ts: Seq<TargetView>, user: Seq<char>) -> Seq<TargetView>
    decreases ts.len(),
{
    if ts.len() == 0 {
        Seq::empty()
    } else if ts.last().threads.contains(user) {
        threads_subscribers(ts.drop_last(), user).push(ts.last())
    } else {
        threads_subscribers(ts.drop_last(), user)
    }
}

/// The targets, in order, whose YouTube sources include `channel`.
pub open spec fn youtube_subscribers(ts: Seq<TargetView>, channel: Seq<char>) -> Seq<TargetView>
    decreases ts.len(),
{
    if ts.len() == 0 {
        Seq::empty()
    } else if ts.last().youtube.contains(channel) {
        youtube_subscribers(ts.drop_last(), channel).push(ts.last())
    } else {
        youtube_subscribers(ts.drop_last(), channel)
    }
}

pub open spec fn target_views<'a>(v: Seq<&'a Target>) -> Seq<TargetView> {
    v.map_values(|t: &'a Target| t@)
}

/// Whether `list` holds `s`.
pub fn strings_contain(list: &Vec<String>, s: &str) -> (r: bool)
    ensures
        r == strings_of(list@).contains(s@),
{
    let mut i: usize = 0;
    while i < list.len()
        invariant
            i <= list@.len(),
            forall|k: int| 0 <= k < i ==> list@[k]@ != s@,
        decreases list@.len() - i,
    {
        if str_eq(list[i].as_str(), s) {
            assert(strings_of(list@)[i as int] == s@);
            return true;
        }
        i = i + 1;
    }
    assert forall|k: int| 0 <= k < strings_of(list@).len() implies strings_of(list@)[k] != s@ by {
        assert(strings_of(list@)[k] == list@[k]@);
    }
    false
}

/// Strictly increasing in [`str_lt`] order: sorted and free of duplicates.
pub open spec fn strictly_sorted(s: Seq<Seq<char>>) -> bool {
    forall|i: int, j: int| 0 <= i < j < s.len() ==> str_lt(s[i], s[j])
}

/// Inserts `s` into the sorted list `out` unless it is already there.
fn insert_sorted(out: &mut Vec<String>, s: &String)
    requires
        strictly_sorted(strings_of(old(out)@)),
    ensures
        strictly_sorted(strings_of(final(out)@)),
        forall|x: Seq<char>| strings_of(final(out)@).contains(x) <==> (strings_of(old(out)@).contains(x) || x == s@),
{
    let sc = chars_of(s.as_str());
    let ghost o = strings_of(out@);
    let mut i: usize = 0;
    while i < out.len() && chars_lt(&chars_of(out[i].as_str()), &sc)
        invariant
            i <= out@.len(),
            o == strings_of(out@),
            sc@ == s@,
            forall|k: int| 0 <= k < i ==> str_lt(#[trigger] o[k], s@),
        decreases out@.len() - i,
    {
        assert(o[i as int] == out@[i as int]@);
        i = i + 1;
    }
    assert(i < out@.len() ==> o[i as int] == out@[i as int]@);
    proof {
        assert forall|k: int| 0 <= k < o.len() && o[k] == s@ implies k >= i by {
            if k < i {
                lemma_str_lt_irreflexive(s@);
            }
        }
    }
    if i < out.len() && str_eq(out[i].as_str(), s.as_str()) {
        assert(o[i as int] == s@);
        return;
    }
    let ghost old_o = o;
    out.insert(i, s.clone());
    proof {
        let n = strings_of(out@);
        assert(n =~= old_o.insert(i as int, s@));
        if i < old_o.len() {
            lemma_str_lt_total(old_o[i as int], s@);
        }
        assert forall|a: int, b: int| 0 <= a < b < n.len() implies str_lt(n[a], n[b]) by {
            if b < i {
            } else if a < i && b == i {
            } else if a < i && b > i {
                assert(n[b] == old_o[b - 1]);
                if b - 1 > i {
                    lemma_str_lt_transitive(s@, old_o[i as int], old_o[b - 1]);
                }
                lemma_str_lt_transitive(n[a], s@, n[b]);
            } else if a == i {
                assert(n[b] == old_o[b - 1]);
                if b - 1 > i {
                    lemma_str_lt_transitive(s@, old_o[i as int], old_o[b - 1]);
                }
            } else {
                assert(n[a] == old_o[a - 1] && n[b] == old_o[b - 1]);
            }
        }
        assert forall|x: Seq<char>| n.contains(x) <==> (old_o.contains(x) || x == s@) by {
            if n.contains(x) {
                let k = choose|k: int| 0 <= k < n.len() && n[k] == x;
                if k < i {
                    assert(old_o[k] == x);
                } else if k > i {
                    assert(old_o[k - 1] == x);
                }
            }
            if old_o.contains(x) {
                let k = choose|k: int| 0 <= k < old_o.len() && old_o[k] == x;
                if k < i {
                    assert(n[k] == x);
                } else {
                    assert(n[k + 1] == x);
                }
            }
            if x == s@ {
                assert(n[i as int] == x);
            }
        }
    }
}

/// A target's Threads sources, or its YouTube sources.
pub open spec fn sources_of(t: TargetView, threads: bool) -> Seq<Seq<char>> {
    if threads {
        t.threads
    } else {
        t.youtube
    }
}

/// The sorted, duplicate-free union of every target's Threads sources, or YouTube sources.
fn sorted_sources(targets: &Vec<Target>, threads: bool) -> (r: Vec<String>)
    ensures
        strictly_sorted(strings_of(r@)),
        forall|x: Seq<char>| strings_of(r@).contains(x) <==> exists|i: int| 0 <= i < targets@.len()
            && #[trigger] sources_of(targets@[i]@, threads).contains(x),
{
    let mut out: Vec<String> = Vec::new();
    let mut i: usize = 0;
    while i < targets.len()
        invariant
            i <= targets@.len(),
            strictly_sorted(strings_of(out@)),
            forall|x: Seq<char>| strings_of(out@).contains(x) <==> exists|k: int| 0 <= k < i
                && #[trigger] sources_of(targets@[k]@, threads).contains(x),
        decreases targets@.len() - i,
    {
        let list: &Vec<String> = if threads { &targets[i].threads } else { &targets[i].youtube };
        let ghost lst = strings_of(list@);
        assert(lst == sources_of(targets@[i as int]@, threads));
        let ghost before = strings_of(out@);
        assert(forall|x: Seq<char>| before.contains(x) <==> exists|k: int| 0 <= k < i
            && #[trigger] sources_of(targets@[k]@, threads).contains(x));
        let mut j: usize = 0;
        while j < list.len()
            invariant
                j <= list@.len(),
                lst == strings_of(list@),
                strictly_sorted(strings_of(out@)),
                forall|x: Seq<char>| #[trigger] strings_of(out@).contains(x) <==> (before.contains(x) || lst.take(j as int).contains(x)),
            decreases list@.len() - j,
        {
            assert(lst.len() == list@.len());
            assert(strings_of(list@)[j as int] == list@[j as int]@);
            let ghost mid = strings_of(out@);
            insert_sorted(&mut out, &list[j]);
            proof {
                let t0 = lst.take(j as int);
                let t1 = lst.take(j as int + 1);
                assert(t1 =~= t0.push(lst[j as int]));
                assert forall|x: Seq<char>| strings_of(out@).contains(x) <==> (before.contains(x) || t1.contains(x)) by {
                    assert(strings_of(out@).contains(x) <==> (mid.contains(x) || x == lst[j as int]));
                    assert(mid.contains(x) <==> (before.contains(x) || t0.contains(x)));
                    if x == lst[j as int] {
                        assert(t1[j as int] == x);
                    }
                    if t1.contains(x) {
                        let k = choose|k: int| 0 <= k < t1.len() && t1[k] == x;
                        if k < j {
                            assert(t0[k] == x);
                        }
                    }
                    if t0.contains(x) {
                        let k = choose|k: int| 0 <= k < t0.len() && t0[k] == x;
                        assert(t1[k] == x);
                    }
                }
            }
            j = j + 1;
        }
        proof {
            assert(lst.len() == list@.len());
            assert(lst.take(j as int) =~= lst);
            assert forall|x: Seq<char>| strings_of(out@).contains(x) <==> exists|k: int| 0 <= k < i + 1
                && #[trigger] sources_of(targets@[k]@, threads).contains(x) by {
                if lst.contains(x) {
                    assert(sources_of(targets@[i as int]@, threads).contains(x));
                }
                if before.contains(x) {
                    let k = choose|k: int| 0 <= k < i && #[trigger] sources_of(targets@[k]@, threads).contains(x);
                    assert(0 <= k < i + 1);
                }
                if exists|k: int| 0 <= k < i + 1 && #[trigger] sources_of(targets@[k]@, threads).contains(x) {
                    let k = choose|k: int| 0 <= k < i + 1 && #[trigger] sources_of(targets@[k]@, threads).contains(x);
                    if k == i {
                        assert(lst.contains(x));
                    }
                }
            }
        }
        i = i + 1;
    }
    out
}

impl Config {
    /// Every Threads username any target subscribes to, sorted and without duplicates.
    pub fn threads_users(&self) -> (r: Vec<String>)
        ensures
            strictly_sorted(strings_of(r@)),
            forall|x: Seq<char>| strings_of(r@).contains(x) <==> exists|i: int| 0 <= i < self@.targets.len()
                && #[trigger] self@.targets[i].threads.contains(x),
    {
        let r = sorted_sources(&self.targets, true);
        proof {
            assert forall|x: Seq<char>| strings_of(r@).contains(x) <==> exists|i: int| 0 <= i < self@.targets.len()
                && #[trigger] self@.targets[i].threads.contains(x) by {
                if strings_of(r@).contains(x) {
                    let i = choose|i: int| 0 <= i < self.targets@.len() && #[trigger] sources_of(self.targets@[i]@, true).contains(x);
                    assert(self@.targets[i] == self.targets@[i]@);
                }
                if exists|i: int| 0 <= i < self@.targets.len() && #[trigger] self@.targets[i].threads.contains(x) {
                    let i = choose|i: int| 0 <= i < self@.targets.len() && #[trigger] self@.targets[i].threads.contains(x);
                    assert(self@.targets[i] == self.targets@[i]@);
                    assert(sources_of(self.targets@[i]@, true).contains(x));
                }
            }
        }
        r
    }

    /// Every YouTube channel any target subscribes to, sorted and without duplicates.
    pub fn youtube_channels(&self) -> (r: Vec<String>)
        ensures
            strictly_sorted(strings_of(r@)),
            forall|x: Seq<char>| strings_of(r@).contains(x) <==> exists|i: int| 0 <= i < self@.targets.len()
                && #[trigger] self@.targets[i].youtube.contains(x),
    {
        let r = sorted_sources(&self.targets, false);
        proof {
            assert forall|x: Seq<char>| strings_of(r@).contains(x) <==> exists|i: int| 0 <= i < self@.targets.len()
                && #[trigger] self@.targets[i].youtube.contains(x) by {
                if strings_of(r@).contains(x) {
                    let i = choose|i: int| 0 <= i < self.targets@.len() && #[trigger] sources_of(self.targets@[i]@, false).contains(x);
                    assert(self@.targets[i] == self.targets@[i]@);
                }
                if exists|i: int| 0 <= i < self@.targets.len() && #[trigger] self@.targets[i].youtube.contains(x) {
                    let i = choose|i: int| 0 <= i < self@.targets.len() && #[trigger] self@.targets[i].youtube.contains(x);
                    assert(self@.targets[i] == self.targets@[i]@);
                    assert(sources_of(self.targets@[i]@, false).contains(x));
                }
            }
        }
        r
    }

    /// The targets, in order, that subscribe to the Threads account `user`.
    pub fn targets_for_threads<'a>(&'a self, user: &str) -> (r: Vec<&'a Target>)
        ensures
            target_views(r@) == threads_subscribers(self@.targets, user@),
    {
        let mut r: Vec<&'a Target> = Vec::new();
        let mut i: usize = 0;
        assert(self@.targets.take(0) =~= Seq::<TargetView>::empty());
        while i < self.targets.len()
            invariant
                i <= self.targets@.len(),
                target_views(r@) == threads_subscribers(self@.targets.take(i as int), user@),
            decreases self.targets@.len() - i,
        {
            let t = &self.targets[i];
            assert(self@.targets.take(i as int + 1).drop_last() =~= self@.targets.take(i as int));
            assert(self@.targets.take(i as int + 1).last() == t@);
            if strings_contain(&t.threads, user) {
                r.push(t);
                assert(target_views(r@) =~= threads_subscribers(self@.targets.take(i as int), user@).push(t@));
            }
            i = i + 1;
        }
        assert(self@.targets.take(i as int) =~= self@.targets);
        r
    }

    /// The targets, in order, that subscribe to the YouTube channel `channel`.
    pub fn targets_for_youtube<'a>(&'a self, channel: &str) -> (r: Vec<&'a Target>)
        ensures
            target_views(r@) == youtube_subscribers(self@.targets, channel@),
    {
        let mut r: Vec<&'a Target> = Vec::new();
        let mut i: usize = 0;
        assert(self@.targets.take(0) =~= Seq::<TargetView>::empty());
        while i < self.targets.len()
            invariant
                i <= self.targets@.len(),
                target_views(r@) == youtube_subscribers(self@.targets.take(i as int), channel@),
            decreases self.targets@.len() - i,
        {
            let t = &self.targets[i];
            assert(self@.targets.take(i as int + 1).drop_last() =~= self@.targets.take(i as int));
            assert(self@.targets.take(i as int + 1).last() == t@);
            if strings_contain(&t.youtube, channel) {
                r.push(t);
                assert(target_views(r@) =~= youtube_subscribers(self@.targets.take(i as int), channel@).push(t@));
            }
            i = i + 1;
        }
        assert(self@.targets.take(i as int) =~= self@.targets);
        r
    }
}

} // verus!
