use statusline::calendar::{calendar_entries, calendar_entries_at, event_entry, summarize, CalendarEvent};
use statusline::entry::Color;

fn event(day: u8, hour: u8, message: &str) -> CalendarEvent {
    CalendarEvent { year: 2026, month: 2, day, hour, minute: 0, message: message.to_string() }
}

#[test]
fn later_event_listed_first() {
    let events = vec![event(2, 9, "dentist"), event(5, 9, "party")];
    let now: i64 = 1_000_000;
    let stamps = vec![now + 86_400, now + 4 * 86_400];
    let r = calendar_entries_at(&events, &stamps, now);
    let names: Vec<String> = r.iter().map(|e| e.name.clone()).collect();
    assert_eq!(names, vec!["event_5-2", "event_2-2"]);
}

#[test]
fn events_outside_window_dropped() {
    let events = vec![event(1, 9, "past"), event(2, 9, "soon"), event(20, 9, "far")];
    let now: i64 = 1_000_000;
    let stamps = vec![now - 1, now, now + 7 * 86_400 + 1];
    let r = calendar_entries_at(&events, &stamps, now);
    assert_eq!(r.len(), 1);
    assert_eq!(r[0].full_text, "2 mars:  soon");
    let edge = calendar_entries_at(&vec![event(9, 9, "edge")], &vec![now + 7 * 86_400], now);
    assert_eq!(edge.len(), 1);
}

#[test]
fn same_moment_later_listed_first() {
    let events = vec![event(3, 9, "first"), event(3, 9, "second")];
    let r = calendar_entries_at(&events, &vec![10, 10], 0);
    let texts: Vec<String> = r.iter().map(|e| e.full_text.clone()).collect();
    assert_eq!(texts, vec!["3 mars:  second", "3 mars:  first"]);
}

#[test]
fn order_by_time_of_day() {
    let events = vec![event(3, 18, "evening"), event(3, 8, "morning")];
    let r = calendar_entries_at(&events, &vec![10, 20], 0);
    let texts: Vec<String> = r.iter().map(|e| e.full_text.clone()).collect();
    assert_eq!(texts, vec!["3 mars:  evening", "3 mars:  morning"]);
}

#[test]
fn summary_stops_after_budget() {
    let words: Vec<String> = ["alpha", "beta", "gamma", "delta", "epsilon"].iter().map(|w| w.to_string()).collect();
    assert_eq!(summarize(&words), " alpha beta gamma");
    assert_eq!(summarize(&vec![]), "");
}

#[test]
fn event_entry_format() {
    let e = event_entry(&CalendarEvent {
        year: 2026,
        month: 11,
        day: 24,
        hour: 20,
        minute: 30,
        message: "  Christmas   eve dinner at home ".to_string(),
    });
    assert_eq!(e.name, "event_24-11");
    assert_eq!(e.full_text, "24 décembre:  Christmas eve dinner");
    assert_eq!(e.color, Some(Color::Purple));
}

fn local_seconds(year: i32, month: i32, day: i32, hour: i32, minute: i32) -> i64 {
    time::Tm {
        tm_sec: 0,
        tm_min: minute,
        tm_hour: hour,
        tm_mday: day,
        tm_mon: month,
        tm_year: year - 1900,
        tm_wday: 0,
        tm_yday: 0,
        tm_isdst: 0,
        tm_utcoff: -5,
        tm_nsec: 0,
    }
    .to_timespec()
    .sec
}

#[test]
fn reminders_text_read_and_filtered() {
    let text = "REM Mar 2 2026 AT 10:00 DURATION 1:00 MSG dentist appointment\n\
                REM Mar 5 2026 AT 9:30 DURATION 0:30 MSG party\n\
                not a reminder\n\
                REM Apr 20 2026 AT 9:30 DURATION 0:30 MSG later\n";
    let now = local_seconds(2026, 2, 1, 12, 0);
    let r = calendar_entries(text, now);
    let texts: Vec<String> = r.iter().map(|e| e.full_text.clone()).collect();
    assert_eq!(texts, vec!["5 mars:  party", "2 mars:  dentist appointment"]);
}

#[test]
fn reminders_none_due() {
    let text = "REM Mar 2 2026 AT 10:00 DURATION 1:00 MSG dentist\n";
    assert!(calendar_entries(text, local_seconds(2027, 0, 1, 0, 0)).is_empty());
    assert!(calendar_entries("", 0).is_empty());
}

#[test]
fn summary_splits_on_unicode_white_space() {
    let e = event_entry(&CalendarEvent {
        year: 2026,
        month: 0,
        day: 3,
        hour: 8,
        minute: 0,
        message: "a\u{3000}b\u{a0}c\u{2028}\u{85}d".to_string(),
    });
    assert_eq!(e.full_text, "3 janvier:  a b c d");
}
