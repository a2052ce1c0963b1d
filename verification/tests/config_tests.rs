use pibipu::config::{Config, ConfigError, Prefix, Target};
use pibipu::text::parse_u64;

fn target(channel: u64, threads: &[&str], youtube: &[&str], prefix: Option<Prefix>) -> Target {
    Target::new(
        channel,
        threads.iter().map(|s| s.to_string()).collect(),
        youtube.iter().map(|s| s.to_string()).collect(),
        prefix,
    )
}

fn config(guild: u64, targets: Vec<Target>) -> Config {
    Config {
        guild_id: guild,
        threads_interval_secs: 300,
        youtube_interval_secs: 60,
        targets,
    }
}

#[test]
fn prefix_string_or_map_and_ids_as_string_or_number() {
    let c = config(
        parse_u64("1").unwrap(),
        vec![
            target(parse_u64("10").unwrap(), &["a"], &[], Some(Prefix::All("<@&1> hey".into()))),
            target(
                11,
                &[],
                &["UC1"],
                Some(Prefix::ByKind(vec![
                    ("live".into(), "go".into()),
                    ("end".into(), "".into()),
                ])),
            ),
            target(12, &[], &[], None),
        ],
    );
    assert_eq!(c.targets[0].prefix("threads"), "<@&1> hey ");
    assert_eq!(c.targets[1].prefix("live"), "go ");
    assert_eq!(c.targets[1].prefix("end"), "");
    assert_eq!(c.targets[1].prefix("video"), "");
    assert_eq!(c.targets[2].prefix("video"), "");
    assert_eq!(c.targets[1].channel_id, 11);
    assert_eq!(c.threads_users().into_iter().collect::<Vec<_>>(), ["a"]);
    assert_eq!(c.targets_for_youtube("UC1").len(), 1);
    assert_eq!(c.targets_for_youtube("UC9").len(), 0);
}

fn valid() -> Config {
    config(
        parse_u64("1").unwrap(),
        vec![target(
            parse_u64("10").unwrap(),
            &[" @MiaopoyaTW "],
            &["UCICZqWqYDD4zfwQ9_7Kw-2g"],
            None,
        )],
    )
}

#[test]
fn invalid_config_is_rejected_before_starting_the_bot() {
    let mut c = valid();
    c.validate().unwrap();
    assert_eq!(c.targets[0].threads, ["miaopoyatw"]);

    let mut bad = valid();
    bad.guild_id = parse_u64("0").unwrap();
    assert!(bad.validate().is_err(), "/guild_id");
    let mut bad = valid();
    bad.threads_interval_secs = 0;
    assert!(bad.validate().is_err(), "/threads_interval_secs");
    let mut bad = valid();
    bad.youtube_interval_secs = 0;
    assert!(bad.validate().is_err(), "/youtube_interval_secs");
    let mut bad = valid();
    bad.targets[0].channel_id = parse_u64("0").unwrap();
    assert!(bad.validate().is_err(), "/targets/0/channel_id");
    let mut bad = valid();
    bad.targets[0].threads[0] = "https://threads.com/@u".into();
    assert!(bad.validate().is_err(), "/targets/0/threads/0");
    let mut bad = valid();
    bad.targets[0].youtube[0] = "@u".into();
    assert!(bad.validate().is_err(), "/targets/0/youtube/0");

    let mut c = valid();
    let duplicate = target(10, &[" @MiaopoyaTW "], &["UCICZqWqYDD4zfwQ9_7Kw-2g"], None);
    c.targets.push(duplicate);
    assert!(
        c.validate().is_err(),
        "duplicate destination causes duplicate notices"
    );
}

#[test]
fn validation_errors_name_the_first_problem() {
    let mut c = valid();
    c.guild_id = 0;
    c.threads_interval_secs = 0;
    assert_eq!(c.validate(), Err(ConfigError::ZeroId));
    let mut c = valid();
    c.youtube_interval_secs = 0;
    assert_eq!(c.validate(), Err(ConfigError::ZeroInterval));
    let mut c = valid();
    c.targets[0].threads[0] = "".into();
    assert_eq!(c.validate(), Err(ConfigError::BadThreadsUser));
    let mut c = valid();
    c.targets[0].youtube[0] = "UCICZqWqYDD4zfwQ9_7Kw-2".into();
    assert_eq!(c.validate(), Err(ConfigError::BadYoutubeChannel));
    let mut c = valid();
    c.targets[0].threads.push("@@MIAOPOYATW".into());
    assert_eq!(c.validate(), Err(ConfigError::DuplicateSource), "same account twice in one target");
    assert_eq!(c.targets[0].threads[0], " @MiaopoyaTW ", "a refused configuration is left as it was");
    assert_eq!(
        ConfigError::DuplicateSource.message(),
        "a source must not be subscribed twice in the same channel"
    );
}

#[test]
fn one_channel_may_take_several_targets_with_their_own_prefixes() {
    let mut c = config(
        1,
        vec![
            target(1360121904526135394, &["sdparty.tw"], &["UCICZqWqYDD4zfwQ9_7Kw-2g"], None),
            target(1360132852959936594, &["miaopoyatw"], &["UC_HqHm72u8efzD_kij0P8PQ"], None),
            target(
                1360132852959936594,
                &["fz.hikari.lee"],
                &[],
                Some(Prefix::ByKind(vec![("threads".into(), "🐰早安".into())])),
            ),
        ],
    );
    assert_eq!(c.validate(), Ok(()));
    assert_eq!(c.threads_users(), ["fz.hikari.lee", "miaopoyatw", "sdparty.tw"]);
    assert_eq!(c.youtube_channels(), ["UCICZqWqYDD4zfwQ9_7Kw-2g", "UC_HqHm72u8efzD_kij0P8PQ"]);
    let ts = c.targets_for_threads("fz.hikari.lee");
    assert_eq!(ts.len(), 1);
    assert_eq!(ts[0].prefix("threads"), "🐰早安 ");
    assert_eq!(c.targets_for_threads("miaopoyatw")[0].channel_id, 1360132852959936594);
}

#[test]
fn sources_are_listed_once_in_order() {
    let c = config(
        1,
        vec![
            target(1, &["b", "a"], &["UCb"], None),
            target(2, &["a", "c"], &["UCa", "UCb"], None),
        ],
    );
    assert_eq!(c.threads_users(), ["a", "b", "c"]);
    assert_eq!(c.youtube_channels(), ["UCa", "UCb"]);
    assert_eq!(c.targets_for_threads("a").len(), 2);
    assert_eq!(c.targets_for_threads("c")[0].channel_id, 2);
}

#[test]
fn ids_parse_like_u64_from_str() {
    assert_eq!(parse_u64("1360121904526135394"), Some(1360121904526135394));
    assert_eq!(parse_u64("+7"), Some(7));
    assert_eq!(parse_u64("18446744073709551615"), Some(u64::MAX));
    assert_eq!(parse_u64("18446744073709551616"), None);
    assert_eq!(parse_u64(""), None);
    assert_eq!(parse_u64("+"), None);
    assert_eq!(parse_u64("-1"), None);
    assert_eq!(parse_u64(" 1"), None);
    assert_eq!(parse_u64("1a"), None);
}

#[test]
fn validating_twice_changes_nothing_more() {
    let mut c = valid();
    assert_eq!(c.validate(), Ok(()));
    assert_eq!(c.targets[0].threads, ["miaopoyatw"]);
    assert_eq!(c.validate(), Ok(()));
    assert_eq!(c.targets[0].threads, ["miaopoyatw"]);
    assert_eq!(c.targets[0].youtube, ["UCICZqWqYDD4zfwQ9_7Kw-2g"]);
}
