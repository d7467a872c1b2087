use bot_logic::audio::{extend_audio, OwnedInput, Playable};
use bot_logic::lobby::Lobby;
use bot_logic::speech::{plan_audio, AudioPart};
use bot_logic::payout_text::{parse_payout, PayoutParseError};
use bot_logic::time::{date_style, style_for, DateStyle};
use bot_logic::voice::{empty_channel_plan, VoiceChange};
use chrono::{TimeZone, Utc};

fn names() -> Vec<(String, u64)> {
    vec![("alice".to_string(), 1), ("bob".to_string(), 2)]
}

#[test]
fn payout_text_is_read_line_by_line() {
    let input = "# Enter the amount of money each player won\n# Pot is 90 coins\n\nalice: 50\n  bob : 30 \r\nalice:+10\n";
    assert_eq!(parse_payout(&names(), input), Ok(vec![(1, 60), (2, 30)]));
}

#[test]
fn payout_amounts_that_do_not_parse_are_ignored() {
    assert_eq!(parse_payout(&names(), "alice: lots\nbob: 5"), Ok(vec![(2, 5)]));
    assert_eq!(parse_payout(&names(), "alice: -5\nbob: 0"), Ok(vec![(2, 0)]));
}

#[test]
fn payout_text_errors() {
    assert_eq!(parse_payout(&names(), "alice 5"), Err(PayoutParseError::InvalidFormat));
    assert_eq!(parse_payout(&names(), "carol: 5"), Err(PayoutParseError::InvalidUser));
    assert_eq!(parse_payout(&names(), "# nothing\n\n"), Err(PayoutParseError::NoPayouts));
    assert_eq!(parse_payout(&names(), ""), Err(PayoutParseError::NoPayouts));
    assert_eq!(parse_payout(&names(), "alice: x"), Err(PayoutParseError::NoPayouts));
    assert_eq!(
        parse_payout(&names(), "alice: 18446744073709551615\nalice: 1"),
        Err(PayoutParseError::Overflow)
    );
    assert_eq!(parse_payout(&names(), "bob: 1\nalice 5"), Err(PayoutParseError::InvalidFormat));
}

#[test]
fn later_names_win() {
    let names = vec![("sam".to_string(), 1), ("sam".to_string(), 7)];
    assert_eq!(parse_payout(&names, "sam: 3"), Ok(vec![(7, 3)]));
}

#[test]
fn voice_changes() {
    assert_eq!(VoiceChange::new(None, Some(4)), VoiceChange::Join { to: 4 });
    assert_eq!(VoiceChange::new(Some(4), None), VoiceChange::Leave { from: 4 });
    assert_eq!(VoiceChange::new(Some(4), Some(5)), VoiceChange::Move { from: 4, to: 5 });
    assert_eq!(VoiceChange::new(Some(4), Some(4)), VoiceChange::Stay);
    assert_eq!(VoiceChange::new(None, None), VoiceChange::Stay);
}

#[test]
fn one_empty_channel_is_kept() {
    assert_eq!(empty_channel_plan(&vec![]), (vec![], false));
    assert_eq!(empty_channel_plan(&vec![(1, true)]), (vec![], false));
    assert_eq!(empty_channel_plan(&vec![(1, false)]), (vec![], true));
    assert_eq!(
        empty_channel_plan(&vec![(1, true), (2, false), (3, true), (4, false)]),
        (vec![1, 3], true)
    );
}

#[test]
fn lobby_update_delays() {
    let lobby = Lobby {
        players: vec![],
        declined_players: vec![],
        min_players: None,
        max_players: None,
        start_time: 10_000,
        pinged: false,
    };
    assert_eq!(lobby.update_delays(9_000, 3 * 3600), (1_000, 1_000 + 3 * 3600));
    assert_eq!(lobby.update_delays(20_000, 3 * 3600), (0, 800));
    assert_eq!(lobby.update_delays(30_000, 3600), (0, 0));
}

#[test]
fn date_styles() {
    let t = |y, mo, d, h| Utc.with_ymd_and_hms(y, mo, d, h, 0, 0).unwrap().timestamp();
    let now = t(2025, 3, 10, 20);
    assert_eq!(date_style(t(2025, 3, 10, 23), now), DateStyle::TimeOnly);
    assert_eq!(date_style(t(2025, 3, 11, 6), now), DateStyle::TimeOnly);
    assert_eq!(date_style(t(2025, 3, 11, 22), now), DateStyle::Tomorrow);
    assert_eq!(date_style(t(2025, 3, 14, 9), now), DateStyle::Weekday);
    assert_eq!(date_style(t(2025, 5, 1, 9), now), DateStyle::DayMonth);
    assert_eq!(date_style(t(2026, 5, 1, 9), now), DateStyle::Full);
    assert_eq!(style_for(t(2026, 5, 1, 9), now, 2025, 2025), DateStyle::DayMonth);
}

#[test]
fn audio_plan_groups_text_and_clips() {
    let vars = vec![("name".to_string(), "Ann".to_string())];
    let clips = vec!["horn".to_string()];
    assert_eq!(
        plan_audio("Hi {name}! {horn} bye {unknown}now", &vars, &clips),
        vec![
            AudioPart::Speech("Hi Ann! ".to_string()),
            AudioPart::Clip("horn".to_string()),
            AudioPart::Speech(" bye now".to_string()),
        ]
    );
    assert_eq!(
        plan_audio("{horn}{horn}", &vars, &clips),
        vec![AudioPart::Clip("horn".to_string()), AudioPart::Clip("horn".to_string())]
    );
    assert_eq!(plan_audio("{unknown}", &vars, &clips), vec![]);
}

#[test]
fn extend_audio_appends() {
    let mut audio = None;
    extend_audio(&mut audio, Playable::bytes(&[1]));
    extend_audio(&mut audio, Playable::bytes(&[2]));
    let p = audio.unwrap();
    assert!(matches!(&p.0, OwnedInput::Bytes(b) if b == &vec![1u8]));
    assert!(matches!(&p.1[0], OwnedInput::Bytes(b) if b == &vec![2u8]));
}
