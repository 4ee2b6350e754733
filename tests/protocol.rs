use reversi_server::board::Color;
use reversi_server::command::{parse_command, parse_trimmed, split_words, Command};
use reversi_server::error::ReversiError;

#[test]
fn parses_make_room_and_join() {
    match parse_command("/makeRoom Shiba pipopa black") {
        Command::MakeRoom { room, name, color } => {
            assert_eq!((room.as_str(), name.as_str(), color), ("Shiba", "pipopa", Some(Color::Black)));
        }
        _ => panic!("expected makeRoom"),
    }
    match parse_command("/join Shiba Tatsuo") {
        Command::Join { room, name } => assert_eq!((room.as_str(), name.as_str()), ("Shiba", "Tatsuo")),
        _ => panic!("expected join"),
    }
}

#[test]
fn make_room_color_is_case_insensitive() {
    for word in ["WHITE", "white", "White"].iter() {
        let line = format!("/makeRoom r n {}", word);
        assert!(matches!(parse_command(&line), Command::MakeRoom { color: Some(Color::White), .. }));
    }
    assert!(matches!(parse_command("/makeRoom r n"), Command::MakeRoom { color: None, .. }));
    assert!(matches!(parse_command("/makeRoom r n purple"), Command::Malformed));
    assert!(matches!(parse_command("/makeRoom r"), Command::NeedsRoomName));
}

#[test]
fn parses_moves() {
    assert!(matches!(parse_command("/move black 2 3"), Command::Move { color: Color::Black, x: 2, y: 3 }));
    assert!(matches!(parse_command("/move BLACK +7 0"), Command::Move { color: Color::Black, x: 7, y: 0 }));
    assert!(matches!(parse_command("/move red 0 0"), Command::Move { color: Color::White, x: 0, y: 0 }));
    assert!(matches!(parse_command("/move white 8 0"), Command::Malformed));
    assert!(matches!(parse_command("/move white x 0"), Command::Malformed));
    assert!(matches!(parse_command("/move white -1 0"), Command::Malformed));
    assert!(matches!(parse_command("/move white 1 2 3"), Command::Malformed));
    assert!(matches!(parse_command("/move white 1"), Command::NeedsColor));
}

#[test]
fn other_lines() {
    assert!(matches!(parse_command("  /listRooms \n"), Command::ListRooms));
    assert!(matches!(parse_command("/listRooms now"), Command::ListRooms));
    assert!(matches!(parse_command("/dance"), Command::Unknown));
    assert!(matches!(parse_command("hello"), Command::Text));
    assert!(matches!(parse_command("   "), Command::Text));
    assert!(matches!(parse_command("/join onlyroom"), Command::NeedsRoomName));
    assert!(matches!(parse_trimmed(" /listRooms"), Command::Text));
}

#[test]
fn words_split_at_three_spaces() {
    assert_eq!(split_words("a b c d e"), vec!["a", "b", "c", "d e"]);
    assert_eq!(split_words("a  b"), vec!["a", "", "b"]);
    assert_eq!(split_words(""), vec![""]);
    assert_eq!(split_words("é ü"), vec!["é", "ü"]);
}

#[test]
fn color_names() {
    assert_eq!(Color::from_name("black"), Some(Color::Black));
    assert_eq!(Color::from_name("wHiTe"), Some(Color::White));
    assert_eq!(Color::from_name("blue"), None);
    assert_eq!(Color::from_upper(&"BLACK".to_string()), Some(Color::Black));
    assert_eq!(Color::from_upper(&"black".to_string()), None);
    assert_eq!(Color::claimed_from_upper(&"BLACK".to_string()), Color::Black);
    assert_eq!(Color::claimed_from_upper(&"GREEN".to_string()), Color::White);
}

#[test]
fn refused_lines_report_malformed_command() {
    assert_eq!(parse_command("/move white 9 9").error(), Some(ReversiError::MalformedCommand));
    assert_eq!(parse_command("/join r").error(), Some(ReversiError::MalformedCommand));
    assert_eq!(parse_command("/move black").error(), Some(ReversiError::MalformedCommand));
    assert_eq!(parse_command("/listRooms").error(), None);
    assert_eq!(parse_command("/dance").error(), None);
}
