use mio0::config::{create_deck_from_string, process_field, Config, Modes};

fn args(words: &[&str]) -> Vec<String> {
    words.iter().map(|w| w.to_string()).collect()
}

#[test]
fn config_modes() {
    assert!(matches!(Config::new(&args(&["mio0", "help"])).unwrap().mode, Modes::Help));
    assert!(matches!(Config::new(&args(&["mio0", "ls"])).unwrap().mode, Modes::ListDecks));
    match Config::new(&args(&["mio0", "create", "2030-01-01-10:00", "notes.txt"])).unwrap().mode {
        Modes::CreateDeck(d, p) => {
            assert_eq!(d, "2030-01-01-10:00");
            assert_eq!(p, "notes.txt");
        }
        _ => panic!("wrong mode"),
    }
    match Config::new(&args(&["mio0", "update", "bio", "more.txt"])).unwrap().mode {
        Modes::UpdateDeck(d, p) => {
            assert_eq!(d, "bio");
            assert_eq!(p, "more.txt");
        }
        _ => panic!("wrong mode"),
    }
    match Config::new(&args(&["mio0", "review", "bio"])).unwrap().mode {
        Modes::ReviewDeck(d) => assert_eq!(d, "bio"),
        _ => panic!("wrong mode"),
    }
}

#[test]
fn config_errors() {
    assert_eq!(Config::new(&args(&["mio0"])).unwrap_err(), "not enough arguments");
    assert_eq!(Config::new(&args(&["mio0", "create", "x"])).unwrap_err(), "wrong number of arguments");
    assert_eq!(Config::new(&args(&["mio0", "update", "x"])).unwrap_err(), "wrong number of arguments");
    assert_eq!(Config::new(&args(&["mio0", "review"])).unwrap_err(), "wrong number of arguments");
    assert_eq!(
        Config::new(&args(&["mio0", "play"])).unwrap_err(),
        "invalid first argument, run help to see options"
    );
}

#[test]
fn process_field_trims_and_drops_bullets() {
    assert_eq!(process_field("  hello  "), "hello");
    assert_eq!(process_field(" - item one "), "item one");
    assert_eq!(process_field("*\tstar"), "star");
    assert_eq!(process_field("   "), "");
    assert_eq!(process_field(""), "");
    assert_eq!(process_field("-"), "");
    assert_eq!(process_field("a - b"), "a - b");
    assert_eq!(process_field("\u{3000}wide\u{a0}"), "wide");
}

#[test]
fn create_deck_from_string_reports_success() {
    let r = create_deck_from_string("bio".to_string(), "2030-01-01-10:00".to_string(), "a >> b".to_string());
    assert_eq!(r, Ok("Deck Created".to_string()));
}

use mio0::config::parse_textfield;

fn sides(text: &str) -> Vec<(String, String)> {
    parse_textfield(text.to_string()).into_iter().map(|p| (p.front, p.back)).collect()
}

#[test]
fn parse_textfield_reads_card_lines() {
    let got = sides("- cell >> unit of life\nno card here\n* atom >> smallest unit \r\na >> b >> c\n\n  x>>y");
    assert_eq!(
        got,
        vec![
            ("cell".to_string(), "unit of life".to_string()),
            ("atom".to_string(), "smallest unit".to_string()),
            ("x".to_string(), "y".to_string()),
        ]
    );
}

#[test]
fn parse_textfield_edge_cases() {
    assert!(sides("").is_empty());
    assert!(sides("\n\n").is_empty());
    assert_eq!(sides(">>"), vec![(String::new(), String::new())]);
    // `>>>` holds one `>>`, then a `>`
    assert_eq!(sides("a>>>b"), vec![("a".to_string(), ">b".to_string())]);
    assert!(sides("a>>>>b").is_empty());
    assert_eq!(sides("q >> a\n"), vec![("q".to_string(), "a".to_string())]);
}
