use bot_logic::audio::{OwnedInput, Playable};
use bot_logic::color::{parse_hex_byte_at, HexColor};
use bot_logic::interval_set::{Interval, IntervalSet};
use bot_logic::lobby::{AskButton, ButtonResponse, Lobby};
use bot_logic::roles::{role_changes, RoleButton, RoleEntry, RoleError};
use bot_logic::template::{template_to_chunks, Chunk};
use bot_logic::to_snd;
use std::path::PathBuf;

#[test]
fn interval_set_merges_overlapping_and_touching() {
    let mut set = IntervalSet::new();
    set.add(10, 20);
    set.add(30, 40);
    assert_eq!(set.find(15), Some(Interval { start: 10, end: 20 }));
    assert_eq!(set.find(20), None);
    assert_eq!(set.find(25), None);
    set.add(20, 30);
    assert_eq!(set.intervals(), &vec![Interval { start: 10, end: 40 }]);
    set.add(5, 12);
    set.add(50, 60);
    set.add(45, 45);
    assert_eq!(
        set.intervals(),
        &vec![Interval { start: 5, end: 40 }, Interval { start: 50, end: 60 }]
    );
    assert_eq!(set.find(5), Some(Interval { start: 5, end: 40 }));
    assert_eq!(set.find(45), None);
    assert_eq!(set.find(59), Some(Interval { start: 50, end: 60 }));
}

fn lobby(max: Option<u32>) -> Lobby {
    Lobby {
        players: vec![],
        declined_players: vec![],
        min_players: Some(2),
        max_players: max,
        start_time: 1_000,
        pinged: false,
    }
}

#[test]
fn lobby_buttons() {
    let mut l = lobby(Some(2));
    assert_eq!(l.press(AskButton::Decline, 1), ButtonResponse::Acknowledge);
    assert_eq!(l.declined_players, vec![1]);
    assert_eq!(l.press(AskButton::Decline, 1), ButtonResponse::OfferLeaveServer);
    assert_eq!(l.press(AskButton::Join, 1), ButtonResponse::Acknowledge);
    assert_eq!(l.players, vec![1]);
    assert!(l.declined_players.is_empty());
    l.press(AskButton::Join, 1);
    assert_eq!(l.players, vec![1]);
    l.press(AskButton::Join, 2);
    assert!(l.full());
    l.press(AskButton::Join, 3);
    assert_eq!(l.players, vec![1, 2]);
    assert_eq!(l.press(AskButton::Leave, 3), ButtonResponse::OfferLeaveServer);
    assert_eq!(l.press(AskButton::Leave, 1), ButtonResponse::Acknowledge);
    assert_eq!(l.players, vec![2]);
}

#[test]
fn lobby_pings_once() {
    let mut l = lobby(None);
    l.players = vec![1, 2];
    assert!(!l.take_ready_ping(900));
    assert!(l.take_ready_ping(998));
    assert!(l.pinged);
    assert!(!l.take_ready_ping(2_000));
    let mut no_min = lobby(None);
    no_min.min_players = None;
    no_min.players = vec![1, 2, 3];
    assert!(!no_min.take_ready_ping(2_000));
}

#[test]
fn template_chunks() {
    assert_eq!(
        template_to_chunks("Hello {name}, {greeting}!"),
        vec![
            Chunk::Text("Hello ".to_string()),
            Chunk::Variable("name".to_string()),
            Chunk::Text(", ".to_string()),
            Chunk::Variable("greeting".to_string()),
            Chunk::Text("!".to_string()),
        ]
    );
    assert_eq!(
        template_to_chunks("{a}"),
        vec![Chunk::Text(String::new()), Chunk::Variable("a".to_string())]
    );
    assert_eq!(
        template_to_chunks("ab{cd"),
        vec![Chunk::Text("ab".to_string()), Chunk::Text("ab{cd".to_string())]
    );
    assert_eq!(template_to_chunks(""), vec![]);
    assert_eq!(template_to_chunks("plain"), vec![Chunk::Text("plain".to_string())]);
}

#[test]
fn hex_colors() {
    assert_eq!(parse_hex_byte_at("ff80", 0), Some(255));
    assert_eq!(parse_hex_byte_at("ff80", 2), Some(128));
    assert_eq!(parse_hex_byte_at("ff80", 3), None);
    assert_eq!(parse_hex_byte_at("zz", 0), None);
    assert_eq!(HexColor::parse("#Ff8000"), Some(HexColor { red: 255, green: 128, blue: 0 }));
    assert_eq!(HexColor::parse("0a0b0c"), Some(HexColor { red: 10, green: 11, blue: 12 }));
    assert_eq!(HexColor::parse("#0a0b0"), None);
    assert_eq!(HexColor::parse("#0a0b0c").unwrap().to_rgb(), 0x0a0b0c);
}

#[test]
fn playables_queue_in_order() {
    let p = Playable::file(PathBuf::from("a.mp3")).add(Playable::bytes(&[1, 2]));
    let p = p.add(Playable::file(PathBuf::from("c.mp3")));
    assert!(matches!(&p.0, OwnedInput::File(path) if path == &PathBuf::from("a.mp3")));
    assert_eq!(p.1.len(), 2);
    assert!(matches!(&p.1[0], OwnedInput::Bytes(b) if b == &vec![1u8, 2]));
    assert!(matches!(&p.1[1], OwnedInput::File(path) if path == &PathBuf::from("c.mp3")));
}

#[test]
fn to_snd_pairs_key_with_value() {
    assert_eq!(to_snd(|k: &u32| k * 2, 21), (21, 42));
}

fn role(id: u64, description: &str) -> RoleEntry {
    RoleEntry { role_id: id, description: description.to_string(), emoji: "🎲".to_string() }
}

#[test]
fn role_buttons_upsert_and_remove() {
    let mut button = RoleButton::new();
    button.insert_role(role(1, "dice"));
    button.insert_role(role(2, "cards"));
    button.insert_role(role(1, "more dice"));
    assert_eq!(button.roles, vec![role(1, "more dice"), role(2, "cards")]);
    assert_eq!(button.remove_role(3), Err(RoleError::NotConfigured));
    assert_eq!(button.remove_role(1), Ok(role(1, "more dice")));
    assert_eq!(button.roles, vec![role(2, "cards")]);
}

#[test]
fn role_selection_changes() {
    let (add, remove) = role_changes(&vec![1, 2, 3, 4], &vec![4, 2, 9], &vec![3, 4, 8]);
    assert_eq!(add, vec![2]);
    assert_eq!(remove, vec![3]);
}

#[test]
fn interval_set_from_spans() {
    let set = IntervalSet::from_spans(&vec![
        Interval { start: 30, end: 40 },
        Interval { start: 10, end: 20 },
        Interval { start: 15, end: 30 },
        Interval { start: 50, end: 50 },
    ]);
    assert_eq!(set.intervals(), &vec![Interval { start: 10, end: 40 }]);
}

#[test]
fn merging_never_adds_spans() {
    let given = vec![
        Interval { start: 1, end: 2 },
        Interval { start: 5, end: 6 },
        Interval { start: 3, end: 4 },
    ];
    let set = IntervalSet::from_spans(&given);
    assert_eq!(set.intervals().len(), 3);
    assert_eq!(IntervalSet::from_spans(&vec![]).intervals().len(), 0);
}
