use statusline::entry::Color;
use statusline::readers::{
    attribute_line, battery_entry, datetime_entry, internet_usage_entry, ip_entry, mail_entries, parse_reading,
    volume_entry, InterfaceAddress, LocalTime, Mailbox,
};

#[test]
fn battery_half_hour_left() {
    let e = battery_entry(50, 100, 100, "Discharging").unwrap();
    assert_eq!(e.full_text, "0:30");
    assert_eq!(e.name, "battery");
    assert_eq!(e.color, None);
}

#[test]
fn battery_hours_and_padded_minutes() {
    let e = battery_entry(12345, 20000, 1000, "Discharging").unwrap();
    assert_eq!(e.full_text, "12:20");
}

#[test]
fn battery_without_power() {
    assert!(battery_entry(50, 100, 0, "Discharging").is_none());
    assert!(battery_entry(50, 100, 0, "Charging").is_none());
}

#[test]
fn battery_other_status() {
    assert!(battery_entry(50, 100, 100, "Full").is_none());
    assert!(battery_entry(50, 100, 100, "Unknown").is_none());
}

#[test]
fn battery_charging_time_to_full() {
    let e = battery_entry(50, 150, 100, "Charging").unwrap();
    assert_eq!(e.full_text, "⚡ 1:00");
}

#[test]
fn battery_charge_above_full() {
    let e = battery_entry(200, 150, 100, "Charging").unwrap();
    assert_eq!(e.full_text, "⚡ 0:00");
}

#[test]
fn volume_muted_whatever_the_level() {
    for (v, min, max) in [(0, 0, 100), (73, 0, 100), (5, 10, 0)] {
        let e = volume_entry(v, min, max, true).unwrap();
        assert_eq!(e.full_text, "♪: 0%");
        assert_eq!(e.color, Some(Color::Yellow));
        assert_eq!(e.name, "volume");
    }
}

#[test]
fn volume_percentage_rounds() {
    assert_eq!(volume_entry(50, 0, 100, false).unwrap().full_text, "☊ 50%");
    assert_eq!(volume_entry(1, 0, 3, false).unwrap().full_text, "☊ 33%");
    assert_eq!(volume_entry(1, 0, 200, false).unwrap().full_text, "☊ 1%");
    assert_eq!(volume_entry(2, 0, 3, false).unwrap().full_text, "☊ 67%");
    assert_eq!(volume_entry(0, 0, 100, false).unwrap().color, None);
}

#[test]
fn volume_divides_by_maximum_not_range() {
    assert_eq!(volume_entry(60, 20, 80, false).unwrap().full_text, "☊ 50%");
}

#[test]
fn volume_without_maximum() {
    assert!(volume_entry(0, 0, 0, false).is_none());
}

#[test]
fn volume_negative_maximum() {
    assert_eq!(volume_entry(10, 0, -100, false).unwrap().full_text, "☊ -10%");
    assert_eq!(volume_entry(1, 0, -200, false).unwrap().full_text, "☊ -1%");
    assert_eq!(volume_entry(-1, 0, -3, false).unwrap().full_text, "☊ 33%");
}

#[test]
fn usage_colors() {
    let high = internet_usage_entry(90).unwrap();
    assert_eq!(high.full_text, "⇵ 90%");
    assert_eq!(high.color, Some(Color::Red));
    let low = internet_usage_entry(50).unwrap();
    assert_eq!(low.full_text, "⇵ 50%");
    assert_eq!(low.color, None);
    assert!(internet_usage_entry(-1).is_none());
    assert_eq!(internet_usage_entry(85).unwrap().color, None);
    assert_eq!(internet_usage_entry(86).unwrap().color, Some(Color::Red));
}

fn addr(name: &str, ip: Option<(u8, u8, u8, u8)>) -> InterfaceAddress {
    InterfaceAddress { interface: name.to_string(), ipv4: ip }
}

#[test]
fn wireless_wins_over_wired() {
    let e = ip_entry(&vec![addr("wlan0", Some((192, 168, 1, 20))), addr("eth0", Some((10, 0, 0, 2)))]);
    assert_eq!(e.full_text, "W: 192.168.1.20");
    assert_eq!(e.color, Some(Color::Green));
    assert_eq!(e.name, "network");
}

#[test]
fn wired_only() {
    let e = ip_entry(&vec![addr("lo", Some((127, 0, 0, 1))), addr("enp3s0", Some((10, 0, 0, 2))), addr("wlan0", None)]);
    assert_eq!(e.full_text, "E: 10.0.0.2");
    assert_eq!(e.color, Some(Color::Green));
}

#[test]
fn no_network() {
    let e = ip_entry(&vec![addr("lo", Some((127, 0, 0, 1)))]);
    assert_eq!(e.full_text, "No network");
    assert_eq!(e.color, Some(Color::Red));
    assert_eq!(ip_entry(&vec![]).full_text, "No network");
}

#[test]
fn last_address_of_a_class_wins() {
    let e = ip_entry(&vec![addr("wlan0", Some((1, 2, 3, 4))), addr("wlan1", Some((5, 6, 7, 8)))]);
    assert_eq!(e.full_text, "W: 5.6.7.8");
}

fn mailbox(name: &str, folders: Vec<Option<usize>>) -> Mailbox {
    Mailbox { name: name.to_string(), folders }
}

#[test]
fn excluded_mailbox_never_shown() {
    let r = mail_entries(&vec![mailbox("Adgear", vec![Some(12), Some(3)])]);
    assert!(r.is_empty());
}

#[test]
fn one_entry_per_folder_with_mail() {
    let r = mail_entries(&vec![mailbox("Work", vec![Some(2), Some(0), Some(5)]), mailbox("Home", vec![Some(1)])]);
    let texts: Vec<String> = r.iter().map(|e| e.full_text.clone()).collect();
    assert_eq!(texts, vec!["✉ Work (2)", "✉ Work (5)", "✉ Home (1)"]);
    assert_eq!(r[0].name, "Work_email");
    assert_eq!(r[1].name, "Work_email");
    assert_eq!(r[2].color, Some(Color::Turquoise));
}

#[test]
fn unreadable_folder_stops_its_mailbox() {
    let r = mail_entries(&vec![mailbox("Work", vec![Some(2), None, Some(5)]), mailbox("Home", vec![Some(1)])]);
    let texts: Vec<String> = r.iter().map(|e| e.full_text.clone()).collect();
    assert_eq!(texts, vec!["✉ Work (2)", "✉ Home (1)"]);
}

#[test]
fn datetime_text() {
    let now = LocalTime { weekday: 1, day: 9, month: 2, year: 2026, hour: 14, minute: 5 };
    let e = datetime_entry(&now).unwrap();
    assert_eq!(e.full_text, "lundi 9 mars 2026 | 14:05");
    assert_eq!(e.name, "datetime");
    assert_eq!(e.color, None);
}

#[test]
fn reading_numbers() {
    assert_eq!(parse_reading("42\n"), Some(42));
    assert_eq!(parse_reading("+7\n"), Some(7));
    assert_eq!(parse_reading("18446744073709551615\n"), Some(u64::MAX));
    assert_eq!(parse_reading("18446744073709551616\n"), None);
    assert_eq!(parse_reading("4a\n"), None);
    assert_eq!(parse_reading("\n"), None);
    assert_eq!(parse_reading(""), None);
}

#[test]
fn attribute_line_drops_line_break() {
    assert_eq!(attribute_line("Discharging\n"), "Discharging");
    assert_eq!(attribute_line(""), "");
}
