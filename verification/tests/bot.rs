use shaken::config::Secret;
use shaken::crates_info::Crate;
use shaken::filter::{filter, filter_commands, filter_mentions, remove_garbage, remove_links};
use shaken::format::format_seconds;
use shaken::irc::{Privmsg, Tags};
use shaken::twitch::EmoteMap;

#[test]
fn seconds_read_naturally() {
    assert_eq!(format_seconds(1), "1 second");
    assert_eq!(format_seconds(2), "2 seconds");
    assert_eq!(format_seconds(61), "1 minute and 1 second");
    assert_eq!(format_seconds(3600), "1 hour");
    assert_eq!(format_seconds(3661), "1 hour, 1 minute and 1 second");
    assert_eq!(
        format_seconds(90061),
        "1 day, 1 hour, 1 minute and 1 second"
    );
    assert_eq!(format_seconds(7322), "2 hours, 2 minutes and 2 seconds");
    assert_eq!(format_seconds(0), "");
}

#[test]
fn tags_parse_and_lookup() {
    let (tags, rest) = Tags::parse("@id=abc;user-id=123;empty= hello world").unwrap();
    assert_eq!(rest, "hello world");
    assert_eq!(tags.get("id").unwrap(), "abc");
    assert_eq!(tags.get("user-id").unwrap(), "123");
    assert_eq!(tags.get_parsed("user-id").unwrap(), 123);
    assert!(tags.get_parsed("id").is_err());
    assert!(tags.get("missing").is_err());

    assert!(Tags::parse("no tags here").is_none());
    assert!(Tags::parse("@no-space-anywhere").is_none());
    assert!(Tags::parse("").is_none());
}

#[test]
fn badges_decide_rank() {
    let (tags, _) = Tags::parse("@badges=broadcaster/1,subscriber/6 x").unwrap();
    let pm = Privmsg {
        tags,
        user: "someone".to_string(),
        target: "#room".to_string(),
        data: "!hello there".to_string(),
    };
    assert!(pm.is_from_broadcaster());
    assert!(!pm.is_from_moderator());
    assert_eq!(pm.command(), "!hello");
    assert!(pm.match_command("!hello everyone"));
    assert!(!pm.match_command("!help"));
    let badges = pm.badge_iter();
    assert_eq!(badges.len(), 2);
    assert_eq!(badges[0], ("broadcaster".to_string(), "1".to_string()));

    let (tags, _) = Tags::parse("@badges=moderator/1 x").unwrap();
    let pm = Privmsg {
        tags,
        user: "m".to_string(),
        target: "#room".to_string(),
        data: "hi".to_string(),
    };
    assert!(pm.is_from_moderator());
    assert!(!pm.is_from_broadcaster());
}

#[test]
fn filtering_strips_noise() {
    assert_eq!(filter_commands("!hi there !go on"), "there on");
    assert_eq!(filter_mentions("@you and @me stay"), "and stay");
    assert_eq!(remove_garbage("ok caf\u{e9} fine"), "ok fine");
    assert_eq!(
        remove_links("see https://host.example/x for more"),
        "see for more"
    );
    // the name pattern's first alternative wins, as the pattern is written
    assert_eq!(filter("shaken_bot say hi"), "_bot say hi");
    assert_eq!(filter("shaken say hi"), "say hi");
    assert_eq!(filter("tell @shaken_bot, !now please"), "tell _bot, please");
    assert_eq!(filter("tell @shaken !now please"), "tell please");
}

#[test]
fn crate_entries_render_two_lines() {
    let full = Crate {
        name: "demo".to_string(),
        max_version: "1.2.3".to_string(),
        description: Some("a thing".to_string()),
        documentation: Some("https://docs.example/demo".to_string()),
        repository: Some("https://git.example/demo".to_string()),
        exact_match: true,
    };
    let (first, second) = full.format();
    assert_eq!(first, "demo = \"1.2.3\" | a thing");
    assert_eq!(
        second,
        "docs: https://docs.example/demo | repo: https://git.example/demo"
    );

    let bare = Crate {
        name: "demo".to_string(),
        max_version: "0.1.0".to_string(),
        description: None,
        documentation: None,
        repository: None,
        exact_match: false,
    };
    let (first, second) = bare.format();
    assert_eq!(first, "demo = 0.1.0");
    assert_eq!(second, "");

    let repo_only = Crate {
        name: "demo".to_string(),
        max_version: "0.1.0".to_string(),
        description: None,
        documentation: None,
        repository: Some("https://git.example/demo".to_string()),
        exact_match: false,
    };
    let (_, second) = repo_only.format();
    assert_eq!(second, "repo: https://git.example/demo");
}

#[test]
fn secrets_render_redacted() {
    let secret = Secret::new("hunter2".to_string());
    assert_eq!(secret.redact(), "xxxxxxx");
    assert_eq!(secret.expose(), "hunter2");
}

#[test]
fn emote_map_looks_up_both_ways() {
    let pairs = vec![
        ("25".to_string(), "Kappa".to_string()),
        ("88".to_string(), "PogChamp".to_string()),
    ];
    let map = EmoteMap::default().with_emotes(&pairs);
    assert_eq!(map.get_id("Kappa"), Some("25"));
    assert_eq!(map.get_name("25"), Some("Kappa"));
    assert!(map.has("PogChamp"));
    assert!(!map.has("Keepo"));
    assert_eq!(map.names().len(), 2);
}
