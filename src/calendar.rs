//! Calendar reminders due within the coming week.

use vstd::prelude::*;

use crate::entry::{entry_view, Color, Entry};
use crate::readers::{month_name, month_str};
use crate::text::{chars_of, dec, push_dec, push_str, string_of};

verus! {

/// One reminder: its date and time of day, and its message.
pub struct CalendarEvent {
    pub year: u16,
    /// Months since January, below twelve.
    pub month: u8,
    pub day: u8,
    pub hour: u8,
    pub minute: u8,
    pub message: String,
}

/// The fields of a reminder as plain values.
pub open spec fn event_record(e: CalendarEvent) -> (u16, u8, u8, u8, u8, Seq<char>) {
    (e.year, e.month, e.day, e.hour, e.minute, e.message@)
}

/// The reminders that the reminders-file parser reads from a text, or `None`
/// where it fails.
pub uninterp spec fn reminders_of(text: Seq<char>) -> Option<Seq<(u16, u8, u8, u8, u8, Seq<char>)>>;

/// Relies on `rem::parse`: the reminders read from the text, each with a
/// month counted from zero (its `Month` enum has twelve variants).
#[verifier::external_body]
fn parse_reminders(text: &str) -> (r: Option<Vec<CalendarEvent>>)
    ensures
        match r {
            Some(v) => reminders_of(text@) == Some(v@.map_values(|e: CalendarEvent| event_record(e)))
                && forall|i: int| 0 <= i < v@.len() ==> #[trigger] v@[i].month < 12,
            None => reminders_of(text@) is None,
        },
{
    let entries = rem::parse(text.as_bytes()).ok()?;
    Some(entries.into_iter().map(|e| CalendarEvent {
        year: e.date.year,
        month: e.date.month as u8,
        day: e.date.day,
        hour: e.time.hour,
        minute: e.time.minute,
        message: e.msg,
    }).collect())
}

/// Relies on `time::Tm::to_timespec`: the instant, in seconds since the epoch,
/// of the event's wall-clock date and time in the local time zone. It depends
/// on the machine's time zone, so nothing is stated of it.
#[verifier::external_body]
fn event_seconds(e: &CalendarEvent) -> (r: i64) {
    time::Tm {
        tm_sec: 0,
        tm_min: e.minute as i32,
        tm_hour: e.hour as i32,
        tm_mday: e.day as i32,
        tm_mon: e.month as i32,
        tm_year: e.year as i32 - 1900,
        tm_wday: 0,
        tm_yday: 0,
        tm_isdst: 0,
        tm_utcoff: -5,
        tm_nsec: 0,
    }.to_timespec().sec
}

/// Whether `c` has the Unicode `White_Space` property.
pub open spec fn is_white_space(c: char) -> bool {
    let u = c as u32;
    (0x09 <= u && u <= 0x0D) || u == 0x20 || u == 0x85 || u == 0xA0 || u == 0x1680 || (0x2000 <= u && u
        <= 0x200A) || u == 0x2028 || u == 0x2029 || u == 0x202F || u == 0x205F || u == 0x3000
}

/// The word under way, if it is not empty.
pub open spec fn finished(word: Seq<char>) -> Seq<Seq<char>> {
    if word.len() > 0 {
        seq![word]
    } else {
        Seq::empty()
    }
}

/// The words of `text`, continuing the word `word` begun before it: the
/// maximal runs of characters that are not white space.
pub open spec fn words_after(word: Seq<char>, text: Seq<char>) -> Seq<Seq<char>>
    decreases text.len(),
{
    if text.len() == 0 {
        finished(word)
    } else if is_white_space(text[0]) {
        finished(word) + words_after(Seq::empty(), text.drop_first())
    } else {
        words_after(word.push(text[0]), text.drop_first())
    }
}

/// The whitespace-separated words of a text.
pub open spec fn words_of(text: Seq<char>) -> Seq<Seq<char>> {
    words_after(Seq::empty(), text)
}

/// Relies on `str::split_whitespace`: the maximal runs of characters without
/// the Unicode `White_Space` property, in order.
#[verifier::external_body]
fn split_words(text: &str) -> (r: Vec<String>)
    ensures
        r@.map_values(|w: String| w@) == words_of(text@),
{
    text.split_whitespace().map(|w| w.to_owned()).collect()
}

/// Seconds in the look-ahead window of seven days.
pub const WINDOW_SECONDS: i64 = 7 * 24 * 60 * 60;

/// Whether an event at instant `at` falls in `[now, now + 7 days]`.
pub open spec fn in_window(at: int, now: int) -> bool {
    now <= at && at <= now + WINDOW_SECONDS
}

/// The summary length past which no further word is added.
pub const SUMMARY_LEN: usize = 15;

/// The summary built on `acc` from `words`: each word is appended after a
/// space for as long as the summary is no longer than the budget.
pub open spec fn summary_from(acc: Seq<char>, words: Seq<Seq<char>>) -> Seq<char>
    decreases words.len(),
{
    if words.len() == 0 || acc.len() > SUMMARY_LEN {
        acc
    } else {
        summary_from(acc + " "@ + words[0], words.drop_first())
    }
}

/// The summary of a message's words.
pub open spec fn summary(words: Seq<Seq<char>>) -> Seq<char> {
    summary_from(Seq::empty(), words)
}

/// Builds the summary of a list of words: each preceded by a space, stopping
/// once the summary is longer than the budget (the word that crosses it is
/// kept).
pub fn summarize(words: &Vec<String>) -> (r: String)
    ensures
        r@ == summary(words@.map_values(|w: String| w@)),
{
    let ghost ws = words@.map_values(|w: String| w@);
    let mut acc: Vec<char> = Vec::new();
    let mut i: usize = 0;
    assert(ws.skip(0) =~= ws);
    assert(acc@ =~= Seq::<char>::empty());
    while i < words.len() && acc.len() <= SUMMARY_LEN
        invariant
            i <= words.len(),
            ws == words@.map_values(|w: String| w@),
            summary_from(acc@, ws.skip(i as int)) == summary(ws),
        decreases words.len() - i,
    {
        proof {
            assert(ws.skip(i as int).drop_first() =~= ws.skip(i + 1));
            assert(ws.skip(i as int)[0] == words@[i as int]@);
        }
        push_str(&mut acc, " ");
        push_str(&mut acc, words[i].as_str());
        i = i + 1;
    }
    proof {
        if i == words.len() {
            assert(ws.skip(i as int).len() == 0);
        }
    }
    string_of(&acc)
}

/// Ordering key of an event's date and time: year, month, day, hour, minute.
pub open spec fn event_key(e: CalendarEvent) -> int {
    (((e.year as int * 256 + e.month as int) * 256 + e.day as int) * 256 + e.hour as int) * 256
        + e.minute as int
}

fn key_of(e: &CalendarEvent) -> (r: u64)
    ensures
        r as int == event_key(*e),
{
    (((e.year as u64 * 256 + e.month as u64) * 256 + e.day as u64) * 256 + e.hour as u64) * 256
        + e.minute as u64
}

/// The positions of the events whose instant falls in the window, in order.
pub open spec fn kept(stamps: Seq<i64>, now: int) -> Seq<int>
    decreases stamps.len(),
{
    if stamps.len() == 0 {
        Seq::empty()
    } else {
        let rest = kept(stamps.drop_last(), now);
        if in_window(stamps.last() as int, now) {
            rest.push(stamps.len() - 1)
        } else {
            rest
        }
    }
}

/// Puts position `x` into `s` before the first position whose event is not
/// later than its own.
pub open spec fn insert_desc(events: Seq<CalendarEvent>, s: Seq<int>, x: int) -> Seq<int>
    decreases s.len(),
{
    if s.len() == 0 {
        seq![x]
    } else if event_key(events[s[0]]) <= event_key(events[x]) {
        seq![x] + s
    } else {
        seq![s[0]] + insert_desc(events, s.drop_first(), x)
    }
}

/// The positions sorted latest first, by date then time of day; among events
/// at the same moment the one listed later comes first (a stable ascending
/// sort, reversed).
pub open spec fn sort_desc(events: Seq<CalendarEvent>, s: Seq<int>) -> Seq<int>
    decreases s.len(),
{
    if s.len() == 0 {
        Seq::empty()
    } else {
        insert_desc(events, sort_desc(events, s.drop_last()), s.last())
    }
}

/// The entry for one event: its day and month, and a summary of its message.
pub open spec fn event_view(e: CalendarEvent) -> (Seq<char>, Option<Color>, Seq<char>) {
    (
        "event_"@ + dec(e.day as nat) + "-"@ + dec(e.month as nat),
        Some(Color::Purple),
        dec(e.day as nat) + " "@ + month_name(e.month as nat) + ": "@ + summary(words_of(e.message@)),
    )
}

/// The calendar entries for events at the given instants.
pub open spec fn calendar_views(events: Seq<CalendarEvent>, stamps: Seq<i64>, now: int) -> Seq<
    (Seq<char>, Option<Color>, Seq<char>),
> {
    sort_desc(events, kept(stamps, now)).map_values(|i: int| event_view(events[i]))
}

pub open spec fn events_wf(events: Seq<CalendarEvent>) -> bool {
    forall|i: int| 0 <= i < events.len() ==> #[trigger] events[i].month < 12
}

proof fn lemma_insert_at(events: Seq<CalendarEvent>, s: Seq<int>, x: int, i: int)
    requires
        0 <= i <= s.len(),
        forall|j: int| 0 <= j < i ==> event_key(events[s[j]]) > event_key(events[x]),
        i == s.len() || event_key(events[s[i]]) <= event_key(events[x]),
    ensures
        insert_desc(events, s, x) == s.insert(i, x),
    decreases i,
{
    if i == 0 {
        if s.len() == 0 {
            assert(s.insert(0, x) =~= seq![x]);
        } else {
            assert(s.insert(0, x) =~= seq![x] + s);
        }
    } else {
        let t = s.drop_first();
        assert forall|j: int| 0 <= j < i - 1 implies event_key(events[t[j]]) > event_key(events[x]) by {
            assert(t[j] == s[j + 1]);
        }
        lemma_insert_at(events, t, x, i - 1);
        assert(seq![s[0]] + t.insert(i - 1, x) =~= s.insert(i, x));
    }
}

proof fn lemma_kept_bounds(stamps: Seq<i64>, now: int)
    ensures
        forall|j: int| 0 <= j < kept(stamps, now).len() ==> 0 <= #[trigger] kept(stamps, now)[j] < stamps.len(),
    decreases stamps.len(),
{
    if stamps.len() > 0 {
        lemma_kept_bounds(stamps.drop_last(), now);
        let rest = kept(stamps.drop_last(), now);
        assert forall|j: int| 0 <= j < kept(stamps, now).len() implies 0 <= #[trigger] kept(stamps, now)[j]
            < stamps.len() by {
            if j < rest.len() {
                assert(kept(stamps, now)[j] == rest[j]);
            }
        }
    }
}

/// The positions of the events in the window, latest first.
pub fn select_events(events: &Vec<CalendarEvent>, stamps: &Vec<i64>, now: i64) -> (r: Vec<usize>)
    requires
        stamps.len() == events.len(),
    ensures
        r@.map_values(|i: usize| i as int) == sort_desc(events@, kept(stamps@, now as int)),
        forall|j: int| 0 <= j < r@.len() ==> #[trigger] r@[j] < events.len(),
{
    let ghost ks = kept(stamps@, now as int);
    proof {
        lemma_kept_bounds(stamps@, now as int);
    }
    let mut sorted: Vec<usize> = Vec::new();
    let mut i: usize = 0;
    while i < events.len()
        invariant
            i <= events.len(),
            stamps.len() == events.len(),
            sorted@.map_values(|k: usize| k as int) == sort_desc(events@, kept(stamps@.take(i as int), now as int)),
            forall|j: int| 0 <= j < sorted@.len() ==> #[trigger] sorted@[j] < i,
        decreases events.len() - i,
    {
        let ghost before = sorted@.map_values(|k: usize| k as int);
        proof {
            assert(stamps@.take(i + 1).drop_last() =~= stamps@.take(i as int));
            assert(stamps@.take(i + 1).last() == stamps@[i as int]);
        }
        let ghost t = stamps@.take(i + 1);
        let ghost prev = kept(stamps@.take(i as int), now as int);
        let at = stamps[i];
        if now <= at && (at as i128) <= (now as i128) + (WINDOW_SECONDS as i128) {
            let k = key_of(&events[i]);
            let mut p: usize = 0;
            while p < sorted.len() && key_of(&events[sorted[p]]) > k
                invariant
                    p <= sorted.len(),
                    k as int == event_key(events@[i as int]),
                    forall|j: int| 0 <= j < sorted@.len() ==> #[trigger] sorted@[j] < i,
                    i < events.len(),
                    forall|j: int| 0 <= j < p ==> event_key(events@[#[trigger] sorted@[j] as int]) > k,
                decreases sorted.len() - p,
            {
                p = p + 1;
            }
            proof {
                assert forall|j: int| 0 <= j < p implies event_key(events@[before[j]]) > event_key(
                    events@[i as int],
                ) by {
                    assert(before[j] == sorted@[j] as int);
                }
                lemma_insert_at(events@, before, i as int, p as int);
            }
            let ghost prior = sorted@;
            sorted.insert(p, i);
            proof {
                assert(sorted@.map_values(|k: usize| k as int) =~= before.insert(p as int, i as int));
                assert(kept(t, now as int) == prev.push(i as int));
                assert(prev.push(i as int).drop_last() =~= prev);
                assert forall|j: int| 0 <= j < sorted@.len() implies #[trigger] sorted@[j] < i + 1 by {
                    if j < p {
                        assert(sorted@[j] == prior[j]);
                    } else if j > p {
                        assert(sorted@[j] == prior[j - 1]);
                    }
                }
            }
        }
        assert(sorted@.map_values(|k: usize| k as int) == sort_desc(events@, kept(t, now as int)));
        i = i + 1;
    }
    assert(stamps@.take(events.len() as int) =~= stamps@);
    sorted
}

/// The calendar entry for one event, in purple.
pub fn event_entry(e: &CalendarEvent) -> (r: Entry)
    requires
        e.month < 12,
    ensures
        entry_view(r) == event_view(*e),
{
    let words = split_words(e.message.as_str());
    let summary_text = summarize(&words);
    let mut name: Vec<char> = Vec::new();
    push_str(&mut name, "event_");
    push_dec(&mut name, e.day as u128);
    push_str(&mut name, "-");
    push_dec(&mut name, e.month as u128);
    let mut text: Vec<char> = Vec::new();
    push_dec(&mut text, e.day as u128);
    push_str(&mut text, " ");
    push_str(&mut text, month_str(e.month));
    push_str(&mut text, ": ");
    push_str(&mut text, summary_text.as_str());
    let r = Entry::new_colored(string_of(&name).as_str(), string_of(&text), Color::Purple);
    assert(entry_view(r) =~= event_view(*e));
    r
}

/// The entries of the events whose instants (`stamps`, one per event, in
/// seconds) fall within seven days from `now`, latest first.
pub fn calendar_entries_at(events: &Vec<CalendarEvent>, stamps: &Vec<i64>, now: i64) -> (r: Vec<Entry>)
    requires
        stamps.len() == events.len(),
        events_wf(events@),
    ensures
        r@.map_values(|e: Entry| entry_view(e)) == calendar_views(events@, stamps@, now as int),
{
    let order = select_events(events, stamps, now);
    let ghost idx = sort_desc(events@, kept(stamps@, now as int));
    let mut out: Vec<Entry> = Vec::new();
    let mut i: usize = 0;
    while i < order.len()
        invariant
            i <= order.len(),
            events_wf(events@),
            order@.map_values(|k: usize| k as int) == idx,
            forall|j: int| 0 <= j < order@.len() ==> #[trigger] order@[j] < events.len(),
            out@.map_values(|e: Entry| entry_view(e)) == idx.take(i as int).map_values(
                |k: int| event_view(events@[k]),
            ),
        decreases order.len() - i,
    {
        let ghost before = out@;
        let k = order[i];
        assert(idx[i as int] == k as int);
        let e = event_entry(&events[k]);
        out.push(e);
        proof {
            assert(entry_view(e) == event_view(events@[idx[i as int]]));
            assert(idx.take(i + 1).map_values(|k: int| event_view(events@[k])) =~= idx.take(i as int).map_values(
                |k: int| event_view(events@[k]),
            ).push(event_view(events@[idx[i as int]])));
            assert(out@.map_values(|e: Entry| entry_view(e)) =~= before.map_values(|e: Entry| entry_view(e)).push(
                entry_view(e),
            ));
        }
        i = i + 1;
    }
    assert(idx.take(order.len() as int) =~= idx);
    out
}

/// The calendar entries for a reminders text at instant `now` (seconds since
/// the epoch): none when the text cannot be read, else those of its events
/// that fall within seven days from `now`, latest first. Each event's instant
/// comes from its local wall-clock date and time.
pub fn calendar_entries(text: &str, now: i64) -> (r: Vec<Entry>)
    ensures
        match reminders_of(text@) {
            None => r@.len() == 0,
            Some(recs) => exists|evs: Seq<CalendarEvent>, stamps: Seq<i64>|
                evs.map_values(|e: CalendarEvent| event_record(e)) == recs && stamps.len() == evs.len()
                    && r@.map_values(|e: Entry| entry_view(e)) == #[trigger] calendar_views(evs, stamps, now as int),
        },
{
    match parse_reminders(text) {
        None => Vec::new(),
        Some(events) => {
            let mut stamps: Vec<i64> = Vec::new();
            let mut i: usize = 0;
            while i < events.len()
                invariant
                    i <= events.len(),
                    stamps.len() == i,
                decreases events.len() - i,
            {
                stamps.push(event_seconds(&events[i]));
                i = i + 1;
            }
            let r = calendar_entries_at(&events, &stamps, now);
            assert(r@.map_values(|e: Entry| entry_view(e)) == calendar_views(events@, stamps@, now as int));
            r
        },
    }
}

} // verus!
