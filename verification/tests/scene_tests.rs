use theater::declarations::{Event, Warning, SCRIPT_GENERATION_ERROR};
use theater::scene_fragment::SceneFragment;

fn strings(lines: &[&str]) -> Vec<String> {
    lines.iter().map(|l| l.to_string()).collect()
}

fn parts(list: &[(&str, &[&str])]) -> Vec<(String, Vec<String>)> {
    list.iter().map(|(name, lines)| (name.to_string(), strings(lines))).collect()
}

#[test]
fn config_line_with_extra_token_is_used_with_warning() {
    let mut config: Vec<(String, String)> = Vec::new();
    let mut warnings: Vec<Warning> = Vec::new();
    let r = SceneFragment::read_config(
        &strings(&["Alice script.txt extra"]),
        &mut config,
        true,
        &mut warnings,
    );
    assert!(r.is_ok());
    assert_eq!(warnings, vec![Warning::ConfigTokenCount(3)]);
    assert_eq!(
        config,
        vec![("Alice".to_string(), "script.txt".to_string())]
    );
}

#[test]
fn config_line_with_one_token_is_dropped_with_warning() {
    let mut config: Vec<(String, String)> = Vec::new();
    let mut warnings: Vec<Warning> = Vec::new();
    let r = SceneFragment::read_config(
        &strings(&["Alice", "Bob bob.txt"]),
        &mut config,
        true,
        &mut warnings,
    );
    assert!(r.is_ok());
    assert_eq!(warnings, vec![Warning::ConfigTokenCount(1)]);
    assert_eq!(config, vec![("Bob".to_string(), "bob.txt".to_string())]);
}

#[test]
fn empty_config_file_is_fatal() {
    let mut config: Vec<(String, String)> = Vec::new();
    let mut warnings: Vec<Warning> = Vec::new();
    let r = SceneFragment::read_config(&strings(&[]), &mut config, true, &mut warnings);
    assert_eq!(r, Err(SCRIPT_GENERATION_ERROR));
    assert!(config.is_empty());
    assert!(warnings.is_empty());
}

#[test]
fn config_warnings_are_gated_by_diagnostic_mode() {
    let mut config: Vec<(String, String)> = Vec::new();
    let mut warnings: Vec<Warning> = Vec::new();
    let r = SceneFragment::read_config(
        &strings(&["Alice script.txt extra"]),
        &mut config,
        false,
        &mut warnings,
    );
    assert!(r.is_ok());
    assert!(warnings.is_empty());
    assert_eq!(
        config,
        vec![("Alice".to_string(), "script.txt".to_string())]
    );
}

#[test]
fn recitation_merges_by_line_number_and_reports_gap() {
    let mut warnings: Vec<Warning> = Vec::new();
    let mut fragment = SceneFragment::new(&"Opening".to_string());
    fragment.prepare(
        &parts(&[("Alice", &["2 Hello", "1 Hi"])]),
        true,
        &mut warnings,
    );
    assert!(warnings.is_empty());
    let mut out: Vec<Event> = Vec::new();
    fragment.recite(true, &mut out, &mut warnings);
    assert_eq!(
        out,
        vec![
            Event::Blank,
            Event::Speaker("Alice".to_string()),
            Event::Dialogue("Hi".to_string()),
            Event::Dialogue("Hello".to_string()),
        ]
    );
    assert_eq!(warnings, vec![Warning::MissingLineNumber(0)]);
}

#[test]
fn recitation_reports_duplicate_line_numbers() {
    let mut warnings: Vec<Warning> = Vec::new();
    let mut fragment = SceneFragment::new(&"Opening".to_string());
    fragment.prepare(
        &parts(&[("Alice", &["0 a"]), ("Bob", &["0 b"])]),
        true,
        &mut warnings,
    );
    let mut out: Vec<Event> = Vec::new();
    fragment.recite(true, &mut out, &mut warnings);
    assert_eq!(warnings, vec![Warning::DuplicateLineNumber(0)]);
    assert_eq!(
        out,
        vec![
            Event::Blank,
            Event::Speaker("Alice".to_string()),
            Event::Dialogue("a".to_string()),
            Event::Blank,
            Event::Speaker("Bob".to_string()),
            Event::Dialogue("b".to_string()),
        ]
    );
}

#[test]
fn recitation_emits_every_line_exactly_once() {
    let mut warnings: Vec<Warning> = Vec::new();
    let mut fragment = SceneFragment::new(&"Opening".to_string());
    fragment.prepare(
        &parts(&[
            ("Alice", &["0 a0", "2 a2", "4 a4"]),
            ("Bob", &["1 b1", "3 b3"]),
        ]),
        false,
        &mut warnings,
    );
    let mut out: Vec<Event> = Vec::new();
    fragment.recite(false, &mut out, &mut warnings);
    let dialogue: Vec<String> = out
        .iter()
        .filter_map(|e| match e {
            Event::Dialogue(t) => Some(t.clone()),
            _ => None,
        })
        .collect();
    assert_eq!(dialogue, vec!["a0", "b1", "a2", "b3", "a4"]);
    assert!(warnings.is_empty());
}

#[test]
fn every_missing_number_in_a_gap_is_reported() {
    let mut warnings: Vec<Warning> = Vec::new();
    let mut fragment = SceneFragment::new(&"Opening".to_string());
    fragment.prepare(&parts(&[("Alice", &["3 late", "5 later"])]), true, &mut warnings);
    let mut out: Vec<Event> = Vec::new();
    fragment.recite(true, &mut out, &mut warnings);
    assert_eq!(
        warnings,
        vec![
            Warning::MissingLineNumber(0),
            Warning::MissingLineNumber(1),
            Warning::MissingLineNumber(2),
            Warning::MissingLineNumber(4),
        ]
    );
}

#[test]
fn gap_warnings_are_silent_without_diagnostics() {
    let mut warnings: Vec<Warning> = Vec::new();
    let mut fragment = SceneFragment::new(&"Opening".to_string());
    fragment.prepare(&parts(&[("Alice", &["3 late"])]), false, &mut warnings);
    let mut out: Vec<Event> = Vec::new();
    fragment.recite(false, &mut out, &mut warnings);
    assert!(warnings.is_empty());
    assert_eq!(out.len(), 3);
}

#[test]
fn shared_performer_neither_exits_nor_enters_at_boundary() {
    let mut warnings: Vec<Warning> = Vec::new();
    let mut first = SceneFragment::new(&"One".to_string());
    first.prepare(
        &parts(&[("Alice", &["0 a"]), ("Bob", &["1 b"])]),
        false,
        &mut warnings,
    );
    let mut second = SceneFragment::new(&"Two".to_string());
    second.prepare(
        &parts(&[("Bob", &["0 c"]), ("Carol", &["1 d"])]),
        false,
        &mut warnings,
    );
    let mut out: Vec<Event> = Vec::new();
    first.exit(&second, &mut out);
    assert_eq!(out, vec![Event::Exit("Alice".to_string())]);
    out.clear();
    second.enter(&first, &mut out);
    assert_eq!(
        out,
        vec![
            Event::Blank,
            Event::Title("Two".to_string()),
            Event::Blank,
            Event::Enter("Carol".to_string()),
        ]
    );
}

#[test]
fn exit_all_announces_in_reverse_cast_order() {
    let mut warnings: Vec<Warning> = Vec::new();
    let mut fragment = SceneFragment::new(&"One".to_string());
    fragment.prepare(
        &parts(&[("Alice", &["0 a"]), ("Bob", &["1 b"])]),
        false,
        &mut warnings,
    );
    let mut out: Vec<Event> = Vec::new();
    fragment.exit_all(&mut out);
    assert_eq!(
        out,
        vec![
            Event::Exit("Bob".to_string()),
            Event::Exit("Alice".to_string()),
        ]
    );
}

#[test]
fn performer_with_no_lines_sorts_first() {
    let mut warnings: Vec<Warning> = Vec::new();
    let mut fragment = SceneFragment::new(&"One".to_string());
    fragment.prepare(
        &parts(&[("Alice", &["0 a"]), ("Mute", &[])]),
        false,
        &mut warnings,
    );
    let mut out: Vec<Event> = Vec::new();
    fragment.enter_all(&mut out);
    assert_eq!(
        out,
        vec![
            Event::Title("One".to_string()),
            Event::Blank,
            Event::Enter("Mute".to_string()),
            Event::Enter("Alice".to_string()),
        ]
    );
}

#[test]
fn blank_title_prints_nothing() {
    let mut warnings: Vec<Warning> = Vec::new();
    let mut fragment = SceneFragment::new(&"   ".to_string());
    fragment.prepare(&parts(&[("Alice", &["0 a"])]), false, &mut warnings);
    assert!(!fragment.has_scene_title());
    let mut out: Vec<Event> = Vec::new();
    fragment.enter_all(&mut out);
    assert_eq!(out, vec![Event::Enter("Alice".to_string())]);
}
