use theater::declarations::{Event, Warning, BAD_COMMAND_LINE_ERROR, SCRIPT_GENERATION_ERROR};
use theater::play::Play;
use theater::return_wrapper::{parse_args, ReturnWrapper};

fn strings(lines: &[&str]) -> Vec<String> {
    lines.iter().map(|l| l.to_string()).collect()
}

fn scene(list: &[(&str, &[&str])]) -> Vec<(String, Vec<String>)> {
    list.iter().map(|(name, lines)| (name.to_string(), strings(lines))).collect()
}

#[test]
fn script_lines_parse_into_titles_and_files() {
    let mut config: Vec<(bool, String)> = Vec::new();
    let mut warnings: Vec<Warning> = Vec::new();
    let r = Play::read_config(
        &strings(&["[scene] Act One", "one.cfg", "", "two.cfg extra junk"]),
        &mut config,
        true,
        &mut warnings,
    );
    assert!(r.is_ok());
    assert_eq!(
        config,
        vec![
            (true, "Act One".to_string()),
            (false, "one.cfg".to_string()),
            (false, "two.cfg".to_string()),
        ]
    );
    assert_eq!(
        warnings,
        vec![Warning::ExtraScriptTokens("extra junk".to_string())]
    );
}

#[test]
fn scene_marker_without_title_is_dropped_with_warning() {
    let mut config: Vec<(bool, String)> = Vec::new();
    let mut warnings: Vec<Warning> = Vec::new();
    let r = Play::read_config(
        &strings(&["[scene]", "one.cfg"]),
        &mut config,
        true,
        &mut warnings,
    );
    assert!(r.is_ok());
    assert_eq!(config, vec![(false, "one.cfg".to_string())]);
    assert_eq!(warnings, vec![Warning::MissingSceneTitle]);
}

#[test]
fn multi_word_titles_join_with_single_spaces() {
    let mut config: Vec<(bool, String)> = Vec::new();
    let mut warnings: Vec<Warning> = Vec::new();
    let r = Play::read_config(
        &strings(&["[scene]   The   Grand   Finale  "]),
        &mut config,
        false,
        &mut warnings,
    );
    assert!(r.is_ok());
    assert_eq!(config, vec![(true, "The Grand Finale".to_string())]);
}

#[test]
fn empty_script_file_is_fatal() {
    let mut config: Vec<(bool, String)> = Vec::new();
    let mut warnings: Vec<Warning> = Vec::new();
    let r = Play::read_config(&strings(&[]), &mut config, false, &mut warnings);
    assert_eq!(r, Err(SCRIPT_GENERATION_ERROR));
}

#[test]
fn blank_only_script_yields_zero_scenes_and_fails() {
    let mut config: Vec<(bool, String)> = Vec::new();
    let mut warnings: Vec<Warning> = Vec::new();
    let r = Play::read_config(&strings(&["", "   ", "\t"]), &mut config, false, &mut warnings);
    assert!(r.is_ok());
    assert!(config.is_empty());
    let mut play = Play::new();
    let scene_parts: Vec<Vec<(String, Vec<String>)>> = Vec::new();
    let p = play.prepare(&config, &scene_parts, false, &mut warnings);
    assert_eq!(p, Err(SCRIPT_GENERATION_ERROR));
}

#[test]
fn first_scene_without_title_is_fatal() {
    let mut warnings: Vec<Warning> = Vec::new();
    let config = vec![(false, "one.cfg".to_string())];
    let scene_parts = vec![scene(&[("Alice", &["0 a"])])];
    let mut play = Play::new();
    let p = play.prepare(&config, &scene_parts, false, &mut warnings);
    assert_eq!(p, Err(SCRIPT_GENERATION_ERROR));
}

#[test]
fn whole_performance_renders_with_shared_performer() {
    let mut warnings: Vec<Warning> = Vec::new();
    let config = vec![
        (true, "Act One".to_string()),
        (false, "one.cfg".to_string()),
        (true, "Act Two".to_string()),
        (false, "two.cfg".to_string()),
    ];
    let scene_parts = vec![
        scene(&[
            ("Alice", &["0 Hello there", "2 How are you"]),
            ("Bob", &["1 Hi Alice"]),
        ]),
        scene(&[("Bob", &["0 Goodbye"]), ("Carol", &["1 Bye"])]),
    ];
    let mut play = Play::new();
    let p = play.prepare(&config, &scene_parts, true, &mut warnings);
    assert!(p.is_ok());
    assert!(warnings.is_empty());
    let mut out: Vec<Event> = Vec::new();
    play.recite(true, &mut out, &mut warnings);
    assert!(warnings.is_empty());
    let expected = vec![
        Event::Title("Act One".to_string()),
        Event::Blank,
        Event::Enter("Alice".to_string()),
        Event::Enter("Bob".to_string()),
        Event::Blank,
        Event::Speaker("Alice".to_string()),
        Event::Dialogue("Hello there".to_string()),
        Event::Blank,
        Event::Speaker("Bob".to_string()),
        Event::Dialogue("Hi Alice".to_string()),
        Event::Blank,
        Event::Speaker("Alice".to_string()),
        Event::Dialogue("How are you".to_string()),
        Event::Blank,
        Event::Exit("Alice".to_string()),
        Event::Blank,
        Event::Title("Act Two".to_string()),
        Event::Blank,
        Event::Enter("Carol".to_string()),
        Event::Blank,
        Event::Speaker("Bob".to_string()),
        Event::Dialogue("Goodbye".to_string()),
        Event::Blank,
        Event::Speaker("Carol".to_string()),
        Event::Dialogue("Bye".to_string()),
        Event::Blank,
        Event::Exit("Carol".to_string()),
        Event::Exit("Bob".to_string()),
    ];
    assert_eq!(out, expected);
    let total_lines = 5;
    let dialogue_count = out
        .iter()
        .filter(|e| matches!(e, Event::Dialogue(_)))
        .count();
    assert_eq!(dialogue_count, total_lines);
}

#[test]
fn rendering_twice_from_the_same_input_is_identical() {
    let config = vec![
        (true, "Act".to_string()),
        (false, "one.cfg".to_string()),
    ];
    let scene_parts = vec![scene(&[("Alice", &["1 one", "0 zero", "oops"])])];
    let mut events = Vec::new();
    let mut warning_runs = Vec::new();
    for _ in 0..2 {
        let mut warnings: Vec<Warning> = Vec::new();
        let mut out: Vec<Event> = Vec::new();
        let mut play = Play::new();
        let p = play.prepare(&config, &scene_parts, true, &mut warnings);
        assert!(p.is_ok());
        play.recite(true, &mut out, &mut warnings);
        events.push(out);
        warning_runs.push(warnings);
    }
    assert_eq!(events[0], events[1]);
    assert_eq!(warning_runs[0], warning_runs[1]);
}

#[test]
fn untitled_middle_scene_is_permitted() {
    let mut warnings: Vec<Warning> = Vec::new();
    let config = vec![
        (true, "Act One".to_string()),
        (false, "one.cfg".to_string()),
        (false, "two.cfg".to_string()),
    ];
    let scene_parts = vec![
        scene(&[("Alice", &["0 a"])]),
        scene(&[("Alice", &["0 b"])]),
    ];
    let mut play = Play::new();
    let p = play.prepare(&config, &scene_parts, false, &mut warnings);
    assert!(p.is_ok());
    let mut out: Vec<Event> = Vec::new();
    play.recite(false, &mut out, &mut warnings);
    let titles: Vec<String> = out
        .iter()
        .filter_map(|e| match e {
            Event::Title(t) => Some(t.clone()),
            _ => None,
        })
        .collect();
    assert_eq!(titles, vec!["Act One"]);
}

#[test]
fn parse_args_accepts_two_or_three_arguments() {
    let mut filename = String::new();
    let r = parse_args(&strings(&["prog", "script.txt"]), &mut filename);
    assert_eq!(r, Ok(false));
    assert_eq!(filename, "script.txt");

    let r = parse_args(&strings(&["prog", "script.txt", "whinge"]), &mut filename);
    assert_eq!(r, Ok(true));
    assert_eq!(filename, "script.txt");
}

#[test]
fn parse_args_rejects_bad_invocations() {
    let mut filename = String::new();
    assert_eq!(
        parse_args(&strings(&["prog"]), &mut filename),
        Err(BAD_COMMAND_LINE_ERROR)
    );
    assert_eq!(
        parse_args(&strings(&["prog", "a", "loud"]), &mut filename),
        Err(BAD_COMMAND_LINE_ERROR)
    );
    assert_eq!(
        parse_args(&strings(&["prog", "a", "whinge", "d"]), &mut filename),
        Err(BAD_COMMAND_LINE_ERROR)
    );
    assert!(filename.is_empty());
}

#[test]
fn return_wrapper_hands_its_code_back() {
    let wrapper = ReturnWrapper::new(SCRIPT_GENERATION_ERROR);
    assert_eq!(wrapper.code(), SCRIPT_GENERATION_ERROR);
    assert_eq!(ReturnWrapper::new(0).code(), 0);
}
