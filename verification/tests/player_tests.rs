use theater::declarations::{Event, Warning};
use theater::player::Player;

fn prepared(name: &str, lines: &[&str], whinge: bool) -> (Player, Vec<Warning>) {
    let mut warnings: Vec<Warning> = Vec::new();
    let mut player = Player::new(&name.to_string());
    let line_vec: Vec<String> = lines.iter().map(|l| l.to_string()).collect();
    player.prepare(&line_vec, whinge, &mut warnings);
    (player, warnings)
}

fn all_events(player: &mut Player) -> Vec<Event> {
    let mut out: Vec<Event> = Vec::new();
    let mut speaker = String::new();
    while player.next_line().is_some() {
        player.speak(&mut speaker, &mut out);
    }
    out
}

#[test]
fn out_of_order_lines_are_sorted_by_number() {
    let (mut player, warnings) = prepared("Alice", &["2 Hello", "1 Hi"], false);
    assert!(warnings.is_empty());
    assert_eq!(player.next_line(), Some(1));
    let events = all_events(&mut player);
    assert_eq!(
        events,
        vec![
            Event::Blank,
            Event::Speaker("Alice".to_string()),
            Event::Dialogue("Hi".to_string()),
            Event::Dialogue("Hello".to_string()),
        ]
    );
    assert_eq!(player.next_line(), None);
}

#[test]
fn equal_line_numbers_keep_file_order() {
    let (mut player, _) = prepared("Alice", &["1 first", "0 zero", "1 second"], false);
    let events = all_events(&mut player);
    assert_eq!(
        events,
        vec![
            Event::Blank,
            Event::Speaker("Alice".to_string()),
            Event::Dialogue("zero".to_string()),
            Event::Dialogue("first".to_string()),
            Event::Dialogue("second".to_string()),
        ]
    );
}

#[test]
fn malformed_line_number_is_dropped_with_warning() {
    let (mut player, warnings) = prepared("Alice", &["x Hello", "3 Ok"], true);
    assert_eq!(
        warnings,
        vec![Warning::InvalidLineNumber("x".to_string())]
    );
    assert_eq!(player.next_line(), Some(3));
    let events = all_events(&mut player);
    assert_eq!(events.len(), 3);
}

#[test]
fn malformed_line_number_is_silent_without_diagnostics() {
    let (_, warnings) = prepared("Alice", &["x Hello", "3 Ok"], false);
    assert!(warnings.is_empty());
}

#[test]
fn plus_sign_and_leading_zeros_parse() {
    let (mut player, warnings) = prepared("Alice", &["+5 plus", "007 padded"], true);
    assert!(warnings.is_empty());
    assert_eq!(player.next_line(), Some(5));
    let events = all_events(&mut player);
    assert_eq!(
        events,
        vec![
            Event::Blank,
            Event::Speaker("Alice".to_string()),
            Event::Dialogue("plus".to_string()),
            Event::Dialogue("padded".to_string()),
        ]
    );
}

#[test]
fn overflowing_line_number_is_malformed() {
    let (player, warnings) = prepared(
        "Alice",
        &["99999999999999999999999999999999999999 huge"],
        true,
    );
    assert_eq!(
        warnings,
        vec![Warning::InvalidLineNumber(
            "99999999999999999999999999999999999999".to_string()
        )]
    );
    assert_eq!(player.next_line(), None);
}

#[test]
fn blank_and_single_token_lines_are_skipped_silently() {
    let (player, warnings) = prepared("Alice", &["", "   ", "5", "\t"], true);
    assert!(warnings.is_empty());
    assert_eq!(player.next_line(), None);
}

#[test]
fn dialogue_text_is_trimmed() {
    let (mut player, _) = prepared("Alice", &["  4   spaced text   "], false);
    assert_eq!(player.next_line(), Some(4));
    let events = all_events(&mut player);
    assert_eq!(
        events,
        vec![
            Event::Blank,
            Event::Speaker("Alice".to_string()),
            Event::Dialogue("spaced text".to_string()),
        ]
    );
}

#[test]
fn speak_is_a_no_op_when_exhausted() {
    let (mut player, _) = prepared("Alice", &[], false);
    let mut out: Vec<Event> = Vec::new();
    let mut speaker = String::new();
    player.speak(&mut speaker, &mut out);
    assert!(out.is_empty());
    assert!(speaker.is_empty());
}

#[test]
fn speaker_header_only_on_change() {
    let (mut player, _) = prepared("Alice", &["0 one", "1 two"], false);
    let mut out: Vec<Event> = Vec::new();
    let mut speaker = "Alice".to_string();
    player.speak(&mut speaker, &mut out);
    player.speak(&mut speaker, &mut out);
    assert_eq!(
        out,
        vec![
            Event::Dialogue("one".to_string()),
            Event::Dialogue("two".to_string()),
        ]
    );
}

#[test]
fn reparsing_the_same_lines_rebuilds_the_same_performer() {
    let lines = &["2 Hello", "1 Hi", "bad line here", "2 again"];
    let (mut p1, w1) = prepared("Alice", lines, true);
    let (mut p2, w2) = prepared("Alice", lines, true);
    assert_eq!(w1, w2);
    assert_eq!(all_events(&mut p1), all_events(&mut p2));
}
