use bot_logic::lobby::{remember_or_restore, AskButton, Lobby, LobbyDefaults};
use std::collections::BTreeMap;
use bot_logic::patterns::{activity_matches, disconnects, find_first_match, is_exempt, PatternError};
use bot_logic::voice::{region_task, RegionTask, VoiceChange};

#[test]
fn exempt_channels_keep_members() {
    assert_eq!(disconnects(Some("afk corner"), Some("^afk")), Ok(false));
    assert_eq!(disconnects(Some("gaming"), Some("^afk")), Ok(true));
    assert_eq!(disconnects(None, Some("^afk")), Ok(true));
    assert_eq!(disconnects(Some("afk"), None), Ok(true));
    assert_eq!(disconnects(Some("afk"), Some("(")), Err(PatternError));
}

#[test]
fn first_matching_pattern_wins() {
    let patterns = vec!["^Mine".to_string(), "craft$".to_string()];
    assert_eq!(find_first_match(&patterns, "Minecraft"), Ok(Some(0)));
    assert_eq!(find_first_match(&patterns, "Warcraft"), Ok(Some(1)));
    assert_eq!(find_first_match(&patterns, "Chess"), Ok(None));
    assert_eq!(find_first_match(&vec!["(".to_string()], "Chess"), Err(PatternError));
    assert_eq!(find_first_match(&vec![], "Chess"), Ok(None));
}

#[test]
fn activities_match_all_given_patterns() {
    assert_eq!(activity_matches("^Mine", Some("Survival"), None, "Minecraft", "Survival mode", ""), Ok(true));
    assert_eq!(activity_matches("^Mine", Some("Creative"), None, "Minecraft", "Survival mode", ""), Ok(false));
    assert_eq!(activity_matches("^Mine", None, Some("^$"), "Minecraft", "", ""), Ok(true));
    assert_eq!(activity_matches("^Chess", None, None, "Minecraft", "", ""), Ok(false));
    assert_eq!(activity_matches("^Mine", Some("("), None, "Minecraft", "", ""), Err(PatternError));
}

#[test]
fn lobby_opens_with_defaults() {
    let lobby = Lobby::open(7, None, Some(4), Some(2), Some(8), 1_000);
    assert_eq!(lobby.players, vec![7]);
    assert_eq!(lobby.min_players, Some(2));
    assert_eq!(lobby.max_players, Some(4));
    assert!(!lobby.pinged);
}

#[test]
fn exemption_by_status() {
    assert_eq!(is_exempt(Some("do not disturb"), Some("disturb")), Ok(true));
    assert_eq!(is_exempt(Some("open"), Some("disturb")), Ok(false));
    assert_eq!(is_exempt(None, Some("disturb")), Ok(false));
}

#[test]
fn region_tasks_follow_voice_changes() {
    assert_eq!(region_task(VoiceChange::Leave { from: 1 }, true), RegionTask::Cancel);
    assert_eq!(region_task(VoiceChange::Join { to: 2 }, true), RegionTask::Restart { channel: 2 });
    assert_eq!(region_task(VoiceChange::Move { from: 1, to: 3 }, true), RegionTask::Restart { channel: 3 });
    assert_eq!(region_task(VoiceChange::Join { to: 2 }, false), RegionTask::Keep);
    assert_eq!(region_task(VoiceChange::Stay, true), RegionTask::Keep);
}

#[test]
fn lobby_with_zero_maximum_stays_empty() {
    let mut lobby = Lobby::open(7, None, Some(0), None, None, 1_000);
    assert!(lobby.players.is_empty());
    assert!(lobby.full());
    lobby.press(AskButton::Join, 8);
    assert!(lobby.players.is_empty());
}

#[test]
fn lobby_defaults_come_from_the_first_matching_pattern() {
    let defaults = vec![
        LobbyDefaults { pattern: "^Chess".to_string(), min_players: Some(2), max_players: Some(2) },
        LobbyDefaults { pattern: "craft".to_string(), min_players: Some(3), max_players: Some(10) },
    ];
    let lobby = Lobby::open_with_defaults(7, "Minecraft", None, Some(5), &defaults, 1_000).unwrap();
    assert_eq!(lobby.min_players, Some(3));
    assert_eq!(lobby.max_players, Some(5));
    assert_eq!(lobby.players, vec![7]);
    let plain = Lobby::open_with_defaults(7, "Go", None, None, &defaults, 1_000).unwrap();
    assert_eq!((plain.min_players, plain.max_players), (None, None));
    let bad = vec![LobbyDefaults { pattern: "(".to_string(), min_players: None, max_players: None }];
    assert_eq!(Lobby::open_with_defaults(7, "Go", None, None, &bad, 1_000).unwrap_err(), PatternError);
}

#[test]
fn failed_lobby_update_restores_last_good_state() {
    let mut cache = BTreeMap::new();
    let mut lobbies = BTreeMap::new();
    let good = Lobby::open(7, None, Some(4), None, None, 1_000);
    remember_or_restore(&mut cache, &mut lobbies, 42, Some(&good));
    assert_eq!(cache.get(&42).unwrap().players, vec![7]);
    assert!(lobbies.is_empty());
    remember_or_restore(&mut cache, &mut lobbies, 42, None);
    assert_eq!(lobbies.get(&42).unwrap().players, vec![7]);
    remember_or_restore(&mut cache, &mut lobbies, 43, None);
    assert!(lobbies.get(&43).is_none());
}
