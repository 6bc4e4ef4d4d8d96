use statusline::entry::{cycle_entries, emission, preamble, Color, Entries, Entry};

#[test]
fn uncolored_json_has_no_color_key() {
    let e = Entry::new("battery", "0:30".to_string());
    assert_eq!(e.to_json(), "{\n    \"name\": \"battery\",\n    \"full_text\": \"0:30\"\n}");
    assert!(!e.to_json().contains("color"));
}

#[test]
fn colored_json_starts_with_color() {
    let e = Entry::new_colored("network", "No network".to_string(), Color::Red);
    assert_eq!(
        e.to_json(),
        "{\n    \"color\": \"#FF0000\",\n    \"name\": \"network\",\n    \"full_text\": \"No network\"\n}"
    );
}

#[test]
fn json_escapes_quotes_backslashes_and_controls() {
    let e = Entry::new("a\"b", "x\\y\n\t\u{1}é✉".to_string());
    assert_eq!(
        e.to_json(),
        "{\n    \"name\": \"a\\\"b\",\n    \"full_text\": \"x\\\\y\\n\\t\\u0001é✉\"\n}"
    );
}

#[test]
fn palette_hex_values() {
    assert_eq!(Color::Green.hex(), "#00FF00");
    assert_eq!(Color::Purple.hex(), "#FF00FF");
    assert_eq!(Color::Red.hex(), "#FF0000");
    assert_eq!(Color::Turquoise.hex(), "#00FFFF");
    assert_eq!(Color::Yellow.hex(), "#FFFF00");
}

#[test]
fn preamble_is_version_then_empty_array() {
    assert_eq!(preamble(), "{\"version\": 1}\n[\n[],\n");
}

#[test]
fn emission_of_nothing() {
    assert_eq!(emission(&vec![]), "[\n\n],\n");
}

#[test]
fn emission_joins_entries_with_commas() {
    let es = vec![Entry::new("a", "1".to_string()), Entry::new("b", "2".to_string())];
    assert_eq!(
        emission(&es),
        "[\n{\n    \"name\": \"a\",\n    \"full_text\": \"1\"\n},\n{\n    \"name\": \"b\",\n    \"full_text\": \"2\"\n}\n],\n"
    );
}

#[test]
fn entries_add_skips_none() {
    let mut es = Entries(vec![]);
    es.add(None);
    es.add(Some(Entry::new("a", "1".to_string())));
    es.add_many(vec![Entry::new("b", "2".to_string()), Entry::new("c", "3".to_string())]);
    let names: Vec<String> = es.0.iter().map(|e| e.name.clone()).collect();
    assert_eq!(names, vec!["a", "b", "c"]);
}

#[test]
fn cycle_keeps_source_order() {
    let r = cycle_entries(
        vec![Entry::new("event_5-2", "x".to_string())],
        vec![Entry::new("Work_email", "y".to_string())],
        None,
        Some(Entry::new("network", "n".to_string())),
        Some(Entry::new("volume", "v".to_string())),
        None,
        Some(Entry::new("datetime", "d".to_string())),
    );
    let names: Vec<String> = r.iter().map(|e| e.name.clone()).collect();
    assert_eq!(names, vec!["event_5-2", "Work_email", "network", "volume", "datetime"]);
}
