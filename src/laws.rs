//! Properties that hold of every input, stated over the readers' models.

use vstd::prelude::*;

use crate::calendar::{calendar_views, event_key, event_view, in_window, insert_desc, kept, sort_desc, CalendarEvent};
use crate::entry::{entry_json, Color};
use crate::readers::{battery_text, excluded, folder_views, mail_views, mailbox_views, readable_count, volume_shown, Mailbox};
use crate::text::{json_escape, json_unescape, lemma_json_round_trip};

verus! {

/// With no power draw the battery reader yields no entry, whatever the rest.
pub proof fn battery_without_power_yields_nothing(energy_now: nat, energy_full: nat, status: Seq<char>)
    ensures
        battery_text(energy_now, energy_full, 0, status) is None,
{
}

/// A battery that is neither charging nor discharging yields no entry.
pub proof fn battery_idle_yields_nothing(energy_now: nat, energy_full: nat, power_now: nat, status: Seq<char>)
    requires
        status != "Charging"@,
        status != "Discharging"@,
    ensures
        battery_text(energy_now, energy_full, power_now, status) is None,
{
}

/// A muted control always shows the fixed muted glyph in yellow, whatever its
/// volume and range.
pub proof fn muted_volume_is_fixed(volume: int, min: int, max: int)
    ensures
        volume_shown(volume, min, max, true) == Some(("volume"@, Some(Color::Yellow), "♪: 0%"@)),
{
}

proof fn lemma_insert_members(events: Seq<CalendarEvent>, s: Seq<int>, x: int, y: int)
    requires
        insert_desc(events, s, x).contains(y),
    ensures
        y == x || s.contains(y),
    decreases s.len(),
{
    if s.len() > 0 && event_key(events[s[0]]) > event_key(events[x]) {
        let r = insert_desc(events, s, x);
        let k = choose|k: int| 0 <= k < r.len() && r[k] == y;
        if k > 0 {
            assert(insert_desc(events, s.drop_first(), x)[k - 1] == y);
            lemma_insert_members(events, s.drop_first(), x, y);
            if y != x {
                let m = choose|m: int| 0 <= m < s.drop_first().len() && s.drop_first()[m] == y;
                assert(s[m + 1] == y);
            }
        } else {
            assert(s[0] == y);
        }
    } else if s.len() > 0 {
        let r = insert_desc(events, s, x);
        let k = choose|k: int| 0 <= k < r.len() && r[k] == y;
        if k > 0 {
            assert(s[k - 1] == y);
        }
    }
}

proof fn lemma_sort_members(events: Seq<CalendarEvent>, s: Seq<int>, y: int)
    requires
        sort_desc(events, s).contains(y),
    ensures
        s.contains(y),
    decreases s.len(),
{
    let p = s.drop_last();
    lemma_insert_members(events, sort_desc(events, p), s.last(), y);
    if y != s.last() {
        lemma_sort_members(events, p, y);
        let m = choose|m: int| 0 <= m < p.len() && p[m] == y;
        assert(s[m] == y);
    }
}

proof fn lemma_kept_members(stamps: Seq<i64>, now: int, y: int)
    requires
        kept(stamps, now).contains(y),
    ensures
        0 <= y < stamps.len(),
        in_window(stamps[y] as int, now),
    decreases stamps.len(),
{
    let p = stamps.drop_last();
    let r = kept(stamps, now);
    let k = choose|k: int| 0 <= k < r.len() && r[k] == y;
    if in_window(stamps.last() as int, now) && k == r.len() - 1 {
    } else {
        assert(kept(p, now)[k] == y);
        lemma_kept_members(p, now, y);
    }
}

/// An event whose instant falls outside `[now, now + 7 days]` is never among
/// the events the calendar reader shows.
pub proof fn events_outside_window_are_dropped(events: Seq<CalendarEvent>, stamps: Seq<i64>, now: int, i: int)
    requires
        stamps.len() == events.len(),
        0 <= i < events.len(),
        !in_window(stamps[i] as int, now),
    ensures
        !sort_desc(events, kept(stamps, now)).contains(i),
{
    if sort_desc(events, kept(stamps, now)).contains(i) {
        lemma_sort_members(events, kept(stamps, now), i);
        lemma_kept_members(stamps, now, i);
    }
}

pub open spec fn latest_first(events: Seq<CalendarEvent>, s: Seq<int>) -> bool {
    forall|j: int, k: int|
        0 <= j < k < s.len() ==> event_key(events[#[trigger] s[j]]) >= event_key(events[#[trigger] s[k]])
}

proof fn lemma_insert_sorted(events: Seq<CalendarEvent>, s: Seq<int>, x: int)
    requires
        latest_first(events, s),
    ensures
        latest_first(events, insert_desc(events, s, x)),
        forall|j: int| 0 <= j < insert_desc(events, s, x).len() ==> #[trigger] insert_desc(events, s, x)[j] == x
            || s.contains(insert_desc(events, s, x)[j]),
    decreases s.len(),
{
    let r = insert_desc(events, s, x);
    if s.len() == 0 {
    } else if event_key(events[s[0]]) <= event_key(events[x]) {
        assert forall|j: int, k: int| 0 <= j < k < r.len() implies event_key(events[#[trigger] r[j]]) >= event_key(
            events[#[trigger] r[k]],
        ) by {
            if j == 0 {
                assert(r[k] == s[k - 1]);
                if k - 1 > 0 {
                    assert(event_key(events[s[0]]) >= event_key(events[s[k - 1]]));
                }
            } else {
                assert(r[j] == s[j - 1] && r[k] == s[k - 1]);
            }
        }
        assert forall|j: int| 0 <= j < r.len() implies #[trigger] r[j] == x || s.contains(r[j]) by {
            if j > 0 {
                assert(r[j] == s[j - 1]);
            }
        }
    } else {
        let t = s.drop_first();
        assert forall|j: int, k: int| 0 <= j < k < t.len() implies event_key(events[#[trigger] t[j]]) >= event_key(
            events[#[trigger] t[k]],
        ) by {
            assert(t[j] == s[j + 1] && t[k] == s[k + 1]);
        }
        lemma_insert_sorted(events, t, x);
        let q = insert_desc(events, t, x);
        assert forall|j: int| 0 <= j < r.len() implies #[trigger] r[j] == x || s.contains(r[j]) by {
            if j > 0 {
                assert(r[j] == q[j - 1]);
                if q[j - 1] != x {
                    let m = choose|m: int| 0 <= m < t.len() && t[m] == q[j - 1];
                    assert(s[m + 1] == r[j]);
                }
            } else {
                assert(s[0] == r[0]);
            }
        }
        assert forall|j: int, k: int| 0 <= j < k < r.len() implies event_key(events[#[trigger] r[j]]) >= event_key(
            events[#[trigger] r[k]],
        ) by {
            if j == 0 {
                assert(r[k] == q[k - 1]);
                if q[k - 1] == x {
                } else {
                    let m = choose|m: int| 0 <= m < t.len() && t[m] == q[k - 1];
                    assert(s[m + 1] == r[k]);
                    assert(event_key(events[s[0]]) >= event_key(events[s[m + 1]]));
                }
            } else {
                assert(r[j] == q[j - 1] && r[k] == q[k - 1]);
            }
        }
    }
}

/// The calendar shows its events latest first: along the shown order, the
/// date and time never increase.
pub proof fn calendar_is_latest_first(events: Seq<CalendarEvent>, s: Seq<int>)
    ensures
        latest_first(events, sort_desc(events, s)),
    decreases s.len(),
{
    if s.len() > 0 {
        calendar_is_latest_first(events, s.drop_last());
        lemma_insert_sorted(events, sort_desc(events, s.drop_last()), s.last());
    }
}

proof fn lemma_suffix_cancel(a: Seq<char>, b: Seq<char>, s: Seq<char>)
    requires
        a + s == b + s,
    ensures
        a == b,
{
    assert((a + s).len() == a.len() + s.len());
    assert((b + s).len() == b.len() + s.len());
    assert(a.len() == b.len());
    assert(a =~= (a + s).subrange(0, a.len() as int));
    assert(b =~= (b + s).subrange(0, b.len() as int));
}

proof fn lemma_folder_names(mailbox: Seq<char>, folders: Seq<Option<usize>>)
    ensures
        forall|j: int| 0 <= j < folder_views(mailbox, folders).len() ==> (#[trigger] folder_views(mailbox, folders)[j]).0
            == mailbox + "_email"@,
    decreases folders.len(),
{
    if folders.len() > 0 {
        lemma_folder_names(mailbox, folders.drop_last());
        let rest = folder_views(mailbox, folders.drop_last());
        let v = folder_views(mailbox, folders);
        assert forall|j: int| 0 <= j < v.len() implies (#[trigger] v[j]).0 == mailbox + "_email"@ by {
            if j < rest.len() {
                assert(v[j] == rest[j]);
            }
        }
    }
}

/// No entry of the mail reader carries the name of an excluded mailbox,
/// whatever the mailboxes hold.
pub proof fn excluded_mailboxes_are_never_shown(boxes: Seq<Mailbox>, name: Seq<char>)
    requires
        excluded(name),
    ensures
        forall|j: int| 0 <= j < mail_views(boxes).len() ==> (#[trigger] mail_views(boxes)[j]).0 != name + "_email"@,
    decreases boxes.len(),
{
    if boxes.len() > 0 {
        let p = boxes.drop_last();
        let m = boxes.last();
        excluded_mailboxes_are_never_shown(p, name);
        lemma_folder_names(m.name@, m.folders@.take(readable_count(m.folders@) as int));
        let v = mail_views(boxes);
        assert forall|j: int| 0 <= j < v.len() implies (#[trigger] v[j]).0 != name + "_email"@ by {
            if j >= mail_views(p).len() {
                let k = j - mail_views(p).len();
                assert(v[j] == mailbox_views(m)[k]);
                if v[j].0 == name + "_email"@ {
                    lemma_suffix_cancel(m.name@, name, "_email"@);
                }
            } else {
                assert(v[j] == mail_views(p)[j]);
            }
        }
    }
}

/// An uncolored entry's JSON object has no `color` key, and reading its
/// `name` and `full_text` string bodies back gives the entry's name and text.
pub proof fn uncolored_json_round_trip(name: Seq<char>, full_text: Seq<char>)
    ensures
        entry_json(None, name, full_text) == "{"@ + "\n    \"name\": \""@ + json_escape(name)
            + "\",\n    \"full_text\": \""@ + json_escape(full_text) + "\"\n}"@,
        json_unescape(json_escape(name)) == name,
        json_unescape(json_escape(full_text)) == full_text,
{
    lemma_json_round_trip(name);
    lemma_json_round_trip(full_text);
    assert(entry_json(None, name, full_text) =~= "{"@ + "\n    \"name\": \""@ + json_escape(name)
        + "\",\n    \"full_text\": \""@ + json_escape(full_text) + "\"\n}"@);
}

proof fn lemma_insert_keeps(events: Seq<CalendarEvent>, s: Seq<int>, x: int, y: int)
    requires
        y == x || s.contains(y),
    ensures
        insert_desc(events, s, x).contains(y),
    decreases s.len(),
{
    let r = insert_desc(events, s, x);
    if s.len() == 0 {
        assert(r[0] == x);
    } else if event_key(events[s[0]]) <= event_key(events[x]) {
        if y == x {
            assert(r[0] == x);
        } else {
            let m = choose|m: int| 0 <= m < s.len() && s[m] == y;
            assert(r[m + 1] == y);
        }
    } else if y == s[0] {
        assert(r[0] == y);
    } else {
        let t = s.drop_first();
        if y != x {
            let m = choose|m: int| 0 <= m < s.len() && s[m] == y;
            assert(t[m - 1] == y);
        }
        lemma_insert_keeps(events, t, x, y);
        let q = insert_desc(events, t, x);
        let k = choose|k: int| 0 <= k < q.len() && q[k] == y;
        assert(r[k + 1] == y);
    }
}

proof fn lemma_sort_keeps(events: Seq<CalendarEvent>, s: Seq<int>, y: int)
    requires
        s.contains(y),
    ensures
        sort_desc(events, s).contains(y),
    decreases s.len(),
{
    let p = s.drop_last();
    if y != s.last() {
        let m = choose|m: int| 0 <= m < s.len() && s[m] == y;
        assert(p[m] == y);
        lemma_sort_keeps(events, p, y);
    }
    lemma_insert_keeps(events, sort_desc(events, p), s.last(), y);
}

proof fn lemma_kept_keeps(stamps: Seq<i64>, now: int, i: int)
    requires
        0 <= i < stamps.len(),
        in_window(stamps[i] as int, now),
    ensures
        kept(stamps, now).contains(i),
    decreases stamps.len(),
{
    let p = stamps.drop_last();
    let r = kept(stamps, now);
    if i == stamps.len() - 1 {
        assert(r[r.len() - 1] == i);
    } else {
        lemma_kept_keeps(p, now, i);
        let k = choose|k: int| 0 <= k < kept(p, now).len() && kept(p, now)[k] == i;
        assert(r[k] == i);
    }
}

/// Of two events that both fall in the window, the one at the later date and
/// time is shown before the other (day 5 before day 2 of the same month).
pub proof fn later_event_shown_first(events: Seq<CalendarEvent>, stamps: Seq<i64>, now: int, a: int, b: int)
    requires
        stamps.len() == events.len(),
        0 <= a < events.len(),
        0 <= b < events.len(),
        in_window(stamps[a] as int, now),
        in_window(stamps[b] as int, now),
        event_key(events[a]) < event_key(events[b]),
    ensures
        exists|j: int, k: int|
            0 <= j < k < calendar_views(events, stamps, now).len()
                && #[trigger] calendar_views(events, stamps, now)[j] == event_view(events[b])
                && #[trigger] calendar_views(events, stamps, now)[k] == event_view(events[a]),
{
    let s = sort_desc(events, kept(stamps, now));
    lemma_kept_keeps(stamps, now, a);
    lemma_kept_keeps(stamps, now, b);
    lemma_sort_keeps(events, kept(stamps, now), a);
    lemma_sort_keeps(events, kept(stamps, now), b);
    calendar_is_latest_first(events, kept(stamps, now));
    let j = choose|j: int| 0 <= j < s.len() && s[j] == b;
    let k = choose|k: int| 0 <= k < s.len() && s[k] == a;
    if k < j {
        assert(event_key(events[s[k]]) >= event_key(events[s[j]]));
    }
    assert(j != k);
    let v = calendar_views(events, stamps, now);
    assert(v[j] == event_view(events[b]));
    assert(v[k] == event_view(events[a]));
}

} // verus!
