//! The readers that turn one sampled value set into display entries.

use vstd::prelude::*;

use crate::entry::{entry_view, shown, Color, Entry};
use crate::text::{chars_of, dec, dec2, push_dec, push_dec2, push_signed_dec, push_str, signed_dec, string_of};

verus! {

/// Whether two strings hold the same characters.
pub fn str_equals(a: &str, b: &str) -> (r: bool)
    ensures
        r == (a@ == b@),
{
    let x = chars_of(a);
    let y = chars_of(b);
    if x.len() != y.len() {
        return false;
    }
    let mut i: usize = 0;
    while i < x.len()
        invariant
            i <= x.len(),
            x.len() == y.len(),
            x@ == a@,
            y@ == b@,
            forall|j: int| 0 <= j < i ==> x@[j] == y@[j],
        decreases x.len() - i,
    {
        if x[i] != y[i] {
            assert(x@[i as int] != y@[i as int]);
            assert(x@ != y@);
            return false;
        }
        i = i + 1;
    }
    assert(x@ =~= y@);
    true
}

/// `H:MM` for a duration in minutes.
pub open spec fn clock_text(minutes: nat) -> Seq<char> {
    dec(minutes / 60) + ":"@ + dec2(minutes % 60)
}

/// Whole minutes in `energy / power` hours, truncated.
pub open spec fn minutes_left(energy: nat, power: nat) -> nat
    recommends
        power > 0,
{
    (energy * 60 / power) as nat
}

/// The battery text for the sampled values: `None` when the power draw is
/// zero or the status is neither charging nor discharging.
pub open spec fn battery_text(energy_now: nat, energy_full: nat, power_now: nat, status: Seq<char>) -> Option<
    Seq<char>,
> {
    if power_now == 0 {
        None
    } else if status == "Discharging"@ {
        Some(clock_text(minutes_left(energy_now, power_now)))
    } else if status == "Charging"@ {
        let to_full: nat = if energy_full >= energy_now { (energy_full - energy_now) as nat } else { 0 };
        Some("⚡ "@ + clock_text(minutes_left(to_full, power_now)))
    } else {
        None
    }
}

fn push_clock(out: &mut Vec<char>, minutes: u128)
    ensures
        final(out)@ == old(out)@ + clock_text(minutes as nat),
{
    push_dec(out, minutes / 60);
    push_str(out, ":");
    push_dec2(out, minutes % 60);
    assert(final(out)@ =~= old(out)@ + clock_text(minutes as nat));
}

/// The battery entry: time left to empty while discharging, or to full
/// (after a `⚡` marker) while charging, as `H:MM`. A charge above the full
/// capacity counts as nothing left to charge.
pub fn battery_entry(energy_now: u64, energy_full: u64, power_now: u64, status: &str) -> (r: Option<Entry>)
    ensures
        shown(r) == match battery_text(energy_now as nat, energy_full as nat, power_now as nat, status@) {
            Some(t) => Some(("battery"@, None::<Color>, t)),
            None => None,
        },
{
    if power_now == 0 {
        return None;
    }
    let mut out: Vec<char> = Vec::new();
    if str_equals(status, "Discharging") {
        let minutes: u128 = (energy_now as u128) * 60 / (power_now as u128);
        push_clock(&mut out, minutes);
    } else if str_equals(status, "Charging") {
        let to_full: u64 = if energy_full >= energy_now { energy_full - energy_now } else { 0 };
        let minutes: u128 = (to_full as u128) * 60 / (power_now as u128);
        push_str(&mut out, "⚡ ");
        push_clock(&mut out, minutes);
    } else {
        return None;
    }
    Some(Entry::new("battery", string_of(&out)))
}

/// `x / d` rounded to the nearest integer, halves away from zero.
pub open spec fn round_div(x: int, d: int) -> int
    recommends
        d > 0,
{
    if x >= 0 {
        (2 * x + d) / (2 * d)
    } else {
        -((-2 * x + d) / (2 * d))
    }
}

/// The volume as a percentage of the control's maximum, rounded: the
/// distance from the minimum over the maximum, as the mixer reports them.
pub open spec fn volume_percent(volume: int, min: int, max: int) -> int
    recommends
        max != 0,
{
    if max > 0 {
        round_div(100 * (volume - min), max)
    } else {
        round_div(-100 * (volume - min), -max)
    }
}

/// The volume text: the muted glyph whenever muted, else the percentage;
/// `None` when unmuted and the maximum is zero, where the ratio is undefined.
pub open spec fn volume_shown(volume: int, min: int, max: int, muted: bool) -> Option<
    (Seq<char>, Option<Color>, Seq<char>),
> {
    if muted {
        Some(("volume"@, Some(Color::Yellow), "♪: 0%"@))
    } else if max == 0 {
        None
    } else {
        Some(("volume"@, None::<Color>, "☊ "@ + signed_dec(volume_percent(volume, min, max)) + "%"@))
    }
}

/// The volume entry for a playback control's reading. A control whose
/// maximum is zero gives no percentage, and so no entry unless muted.
pub fn volume_entry(volume: i64, min: i64, max: i64, muted: bool) -> (r: Option<Entry>)
    ensures
        shown(r) == volume_shown(volume as int, min as int, max as int, muted),
{
    if muted {
        return Some(Entry::new_colored("volume", "♪: 0%".to_owned(), Color::Yellow));
    }
    if max == 0 {
        return None;
    }
    let diff: i128 = (volume as i128) - (min as i128);
    let x: i128 = if max > 0 { 100 * diff } else { -100 * diff };
    let d: i128 = if max > 0 { max as i128 } else { 0 - (max as i128) };
    let p: i128 = if x >= 0 {
        assert((2 * x + d) / (2 * d) <= 2 * x + d) by (nonlinear_arith)
            requires
                2 * x + d >= 0,
                d > 0,
        ;
        (2 * x + d) / (2 * d)
    } else {
        assert((-2 * x + d) / (2 * d) <= -2 * x + d) by (nonlinear_arith)
            requires
                -2 * x + d >= 0,
                d > 0,
        ;
        assert((-2 * x + d) / (2 * d) >= 0) by (nonlinear_arith)
            requires
                -2 * x + d >= 0,
                d > 0,
        ;
        0 - (-2 * x + d) / (2 * d)
    };
    let mut out: Vec<char> = Vec::new();
    push_str(&mut out, "☊ ");
    push_signed_dec(&mut out, p);
    push_str(&mut out, "%");
    Some(Entry::new("volume", string_of(&out)))
}

/// The value of the shared usage slot before the usage has been fetched.
pub const USAGE_UNLOADED: isize = -1;

/// Usage above this percentage is highlighted.
pub const USAGE_ALERT: isize = 85;

/// The internet-usage text and color for a slot value.
pub open spec fn usage_shown(value: int) -> Option<(Seq<char>, Option<Color>, Seq<char>)> {
    if value == USAGE_UNLOADED {
        None
    } else {
        let text = "⇵ "@ + signed_dec(value) + "%"@;
        if value > USAGE_ALERT {
            Some(("internet_usage"@, Some(Color::Red), text))
        } else {
            Some(("internet_usage"@, None::<Color>, text))
        }
    }
}

/// The internet-usage entry for the value held in the shared usage slot.
pub fn internet_usage_entry(value: isize) -> (r: Option<Entry>)
    ensures
        shown(r) == usage_shown(value as int),
{
    if value == USAGE_UNLOADED {
        return None;
    }
    let mut out: Vec<char> = Vec::new();
    push_str(&mut out, "⇵ ");
    push_signed_dec(&mut out, value as i128);
    push_str(&mut out, "%");
    let text = string_of(&out);
    if value > USAGE_ALERT {
        Some(Entry::new_colored("internet_usage", text, Color::Red))
    } else {
        Some(Entry::new("internet_usage", text))
    }
}

/// One address of a network interface: `ipv4` holds the octets of an IPv4
/// address, and is `None` for an interface with no address or with an
/// address of another family.
pub struct InterfaceAddress {
    pub interface: String,
    pub ipv4: Option<(u8, u8, u8, u8)>,
}

/// Dotted-decimal notation of an IPv4 address.
pub open spec fn dotted(a: (u8, u8, u8, u8)) -> Seq<char> {
    dec(a.0 as nat) + "."@ + dec(a.1 as nat) + "."@ + dec(a.2 as nat) + "."@ + dec(a.3 as nat)
}

/// Whether the interface name starts with `class`.
pub open spec fn in_class(name: Seq<char>, class: char) -> bool {
    name.len() > 0 && name[0] == class
}

/// The last IPv4 address listed for an interface whose name starts with `class`.
pub open spec fn last_address(addrs: Seq<InterfaceAddress>, class: char) -> Option<Seq<char>>
    decreases addrs.len(),
{
    if addrs.len() == 0 {
        None
    } else {
        let a = addrs.last();
        match a.ipv4 {
            Some(ip) if in_class(a.interface@, class) => Some(dotted(ip)),
            _ => last_address(addrs.drop_last(), class),
        }
    }
}

/// The network text and color: a wireless address (interfaces named `w...`)
/// wins over a wired one (`e...`); with neither, "No network" in red.
pub open spec fn network_shown(addrs: Seq<InterfaceAddress>) -> (Seq<char>, Option<Color>, Seq<char>) {
    match last_address(addrs, 'w') {
        Some(w) => ("network"@, Some(Color::Green), "W: "@ + w),
        None => match last_address(addrs, 'e') {
            Some(e) => ("network"@, Some(Color::Green), "E: "@ + e),
            None => ("network"@, Some(Color::Red), "No network"@),
        },
    }
}

fn dotted_text(a: (u8, u8, u8, u8)) -> (r: Vec<char>)
    ensures
        r@ == dotted(a),
{
    let mut out: Vec<char> = Vec::new();
    push_dec(&mut out, a.0 as u128);
    push_str(&mut out, ".");
    push_dec(&mut out, a.1 as u128);
    push_str(&mut out, ".");
    push_dec(&mut out, a.2 as u128);
    push_str(&mut out, ".");
    push_dec(&mut out, a.3 as u128);
    assert(out@ =~= dotted(a));
    out
}

/// The network entry for the interfaces' addresses, in enumeration order.
pub fn ip_entry(addrs: &Vec<InterfaceAddress>) -> (r: Entry)
    ensures
        entry_view(r) == network_shown(addrs@),
{
    let mut wired: Option<Vec<char>> = None;
    let mut wireless: Option<Vec<char>> = None;
    let mut i: usize = 0;
    while i < addrs.len()
        invariant
            i <= addrs.len(),
            match wired {
                Some(v) => last_address(addrs@.take(i as int), 'e') == Some(v@),
                None => last_address(addrs@.take(i as int), 'e') is None,
            },
            match wireless {
                Some(v) => last_address(addrs@.take(i as int), 'w') == Some(v@),
                None => last_address(addrs@.take(i as int), 'w') is None,
            },
        decreases addrs.len() - i,
    {
        let a = &addrs[i];
        proof {
            assert(addrs@.take(i + 1).drop_last() =~= addrs@.take(i as int));
            assert(addrs@.take(i + 1).last() == addrs@[i as int]);
        }
        match a.ipv4 {
            Some(ip) => {
                let name = chars_of(a.interface.as_str());
                if name.len() > 0 && name[0] == 'w' {
                    wireless = Some(dotted_text(ip));
                } else if name.len() > 0 && name[0] == 'e' {
                    wired = Some(dotted_text(ip));
                }
            },
            None => {},
        }
        i = i + 1;
    }
    assert(addrs@.take(addrs.len() as int) =~= addrs@);
    let mut out: Vec<char> = Vec::new();
    match wireless {
        Some(w) => {
            push_str(&mut out, "W: ");
            out.append(&mut w.clone());
            Entry::new_colored("network", string_of(&out), Color::Green)
        },
        None => match wired {
            Some(e) => {
                push_str(&mut out, "E: ");
                out.append(&mut e.clone());
                Entry::new_colored("network", string_of(&out), Color::Green)
            },
            None => Entry::new_colored("network", "No network".to_owned(), Color::Red),
        },
    }
}

/// One mailbox of the mail-sync tree: its directory name, and for each of its
/// folders in listing order the number of messages under `new`, or `None`
/// where that directory could not be read.
pub struct Mailbox {
    pub name: String,
    pub folders: Vec<Option<usize>>,
}

/// Whether no entry is ever shown for the mailbox.
pub open spec fn excluded(name: Seq<char>) -> bool {
    name == "Adgear"@
}

/// How many folders are counted: those before the first unreadable one.
pub open spec fn readable_count(folders: Seq<Option<usize>>) -> nat
    decreases folders.len(),
{
    if folders.len() == 0 {
        0
    } else if folders[0] is None {
        0
    } else {
        1 + readable_count(folders.drop_first())
    }
}

/// The entry for one folder with `count` unread messages.
pub open spec fn unread_view(mailbox: Seq<char>, count: nat) -> (Seq<char>, Option<Color>, Seq<char>) {
    (mailbox + "_email"@, Some(Color::Turquoise), "✉ "@ + mailbox + " ("@ + dec(count) + ")"@)
}

/// The entries of folders, all readable, that hold unread mail.
pub open spec fn folder_views(mailbox: Seq<char>, folders: Seq<Option<usize>>) -> Seq<
    (Seq<char>, Option<Color>, Seq<char>),
>
    decreases folders.len(),
{
    if folders.len() == 0 {
        Seq::empty()
    } else {
        let rest = folder_views(mailbox, folders.drop_last());
        match folders.last() {
            Some(c) if c > 0 => rest.push(unread_view(mailbox, c as nat)),
            _ => rest,
        }
    }
}

/// The entries of one mailbox: none when it is excluded, else one for each
/// folder with unread mail, up to the first unreadable folder.
pub open spec fn mailbox_views(m: Mailbox) -> Seq<(Seq<char>, Option<Color>, Seq<char>)> {
    if excluded(m.name@) {
        Seq::empty()
    } else {
        folder_views(m.name@, m.folders@.take(readable_count(m.folders@) as int))
    }
}

/// The entries of all mailboxes, in listing order.
pub open spec fn mail_views(boxes: Seq<Mailbox>) -> Seq<(Seq<char>, Option<Color>, Seq<char>)>
    decreases boxes.len(),
{
    if boxes.len() == 0 {
        Seq::empty()
    } else {
        mail_views(boxes.drop_last()) + mailbox_views(boxes.last())
    }
}

proof fn lemma_readable_count(folders: Seq<Option<usize>>, i: int)
    requires
        0 <= i <= folders.len(),
        forall|j: int| 0 <= j < i ==> folders[j] is Some,
        i == folders.len() || folders[i] is None,
    ensures
        readable_count(folders) == i,
    decreases i,
{
    if i > 0 {
        lemma_readable_count(folders.drop_first(), i - 1);
    }
}

fn is_excluded(name: &str) -> (r: bool)
    ensures
        r == excluded(name@),
{
    str_equals(name, "Adgear")
}

/// The unread-mail entries, one for each folder holding unread messages.
pub fn mail_entries(boxes: &Vec<Mailbox>) -> (r: Vec<Entry>)
    ensures
        r@.map_values(|e: Entry| entry_view(e)) == mail_views(boxes@),
{
    let mut out: Vec<Entry> = Vec::new();
    let mut b: usize = 0;
    while b < boxes.len()
        invariant
            b <= boxes.len(),
            out@.map_values(|e: Entry| entry_view(e)) == mail_views(boxes@.take(b as int)),
        decreases boxes.len() - b,
    {
        let m = &boxes[b];
        let ghost start = out@;
        proof {
            assert(boxes@.take(b + 1).drop_last() =~= boxes@.take(b as int));
            assert(boxes@.take(b + 1).last() == boxes@[b as int]);
        }
        if !is_excluded(m.name.as_str()) {
            let mut i: usize = 0;
            while i < m.folders.len() && m.folders[i].is_some()
                invariant
                    i <= m.folders.len(),
                    forall|j: int| 0 <= j < i ==> m.folders@[j] is Some,
                    out@.map_values(|e: Entry| entry_view(e)) == start.map_values(|e: Entry| entry_view(e))
                        + folder_views(m.name@, m.folders@.take(i as int)),
                decreases m.folders.len() - i,
            {
                let ghost before = out@;
                let count = m.folders[i].unwrap();
                proof {
                    assert(m.folders@.take(i + 1).drop_last() =~= m.folders@.take(i as int));
                    assert(m.folders@.take(i + 1).last() == m.folders@[i as int]);
                }
                if count > 0 {
                    let mut name: Vec<char> = chars_of(m.name.as_str());
                    push_str(&mut name, "_email");
                    let mut text: Vec<char> = Vec::new();
                    push_str(&mut text, "✉ ");
                    push_str(&mut text, m.name.as_str());
                    push_str(&mut text, " (");
                    push_dec(&mut text, count as u128);
                    push_str(&mut text, ")");
                    let e = Entry::new_colored(string_of(&name).as_str(), string_of(&text), Color::Turquoise);
                    out.push(e);
                    proof {
                        assert(entry_view(e) == unread_view(m.name@, count as nat));
                        assert(out@.map_values(|e: Entry| entry_view(e)) =~= before.map_values(
                            |e: Entry| entry_view(e),
                        ).push(entry_view(e)));
                    }
                }
                i = i + 1;
            }
            proof {
                lemma_readable_count(m.folders@, i as int);
            }
        } else {
            assert(out@ =~= start);
        }
        proof {
            assert(mail_views(boxes@.take(b + 1)) == mail_views(boxes@.take(b as int)) + mailbox_views(
                boxes@[b as int],
            ));
            assert(out@.map_values(|e: Entry| entry_view(e)) =~= mail_views(boxes@.take(b + 1)));
        }
        b = b + 1;
    }
    assert(boxes@.take(boxes.len() as int) =~= boxes@);
    out
}

/// The displayed name of month `m`, counted from zero for January.
pub open spec fn month_name(m: nat) -> Seq<char> {
    if m == 0 { "janvier"@ } else if m == 1 { "février"@ } else if m == 2 { "mars"@ }
    else if m == 3 { "avril"@ } else if m == 4 { "mai"@ } else if m == 5 { "juin"@ }
    else if m == 6 { "juillet"@ } else if m == 7 { "août"@ } else if m == 8 { "septembre"@ }
    else if m == 9 { "octobre"@ } else if m == 10 { "novembre"@ } else { "décembre"@ }
}

/// The displayed name of month `m`, which is below twelve.
pub fn month_str(m: u8) -> (r: &'static str)
    requires
        m < 12,
    ensures
        r@ == month_name(m as nat),
{
    if m == 0 { "janvier" } else if m == 1 { "février" } else if m == 2 { "mars" }
    else if m == 3 { "avril" } else if m == 4 { "mai" } else if m == 5 { "juin" }
    else if m == 6 { "juillet" } else if m == 7 { "août" } else if m == 8 { "septembre" }
    else if m == 9 { "octobre" } else if m == 10 { "novembre" } else { "décembre" }
}

/// The displayed name of weekday `d`, counted from zero for Sunday.
pub open spec fn day_name(d: nat) -> Seq<char> {
    if d == 0 { "dimanche"@ } else if d == 1 { "lundi"@ } else if d == 2 { "mardi"@ }
    else if d == 3 { "mercredi"@ } else if d == 4 { "jeudi"@ } else if d == 5 { "vendredi"@ }
    else { "samedi"@ }
}

fn day_str(d: u8) -> (r: &'static str)
    requires
        d < 7,
    ensures
        r@ == day_name(d as nat),
{
    if d == 0 { "dimanche" } else if d == 1 { "lundi" } else if d == 2 { "mardi" }
    else if d == 3 { "mercredi" } else if d == 4 { "jeudi" } else if d == 5 { "vendredi" }
    else { "samedi" }
}

/// A local wall-clock reading.
pub struct LocalTime {
    /// Days since Sunday, below seven.
    pub weekday: u8,
    pub day: u8,
    /// Months since January, below twelve.
    pub month: u8,
    pub year: i32,
    pub hour: u8,
    pub minute: u8,
}

impl LocalTime {
    pub open spec fn wf(&self) -> bool {
        self.weekday < 7 && self.month < 12
    }
}

/// `<weekday> <day> <month> <year> | <hour>:<minute, two digits>`.
pub open spec fn datetime_text(t: LocalTime) -> Seq<char> {
    day_name(t.weekday as nat) + " "@ + dec(t.day as nat) + " "@ + month_name(t.month as nat) + " "@
        + signed_dec(t.year as int) + " | "@ + dec(t.hour as nat) + ":"@ + dec2(t.minute as nat)
}

/// The date-and-time entry; there always is one.
pub fn datetime_entry(now: &LocalTime) -> (r: Option<Entry>)
    requires
        now.wf(),
    ensures
        shown(r) == Some(("datetime"@, None::<Color>, datetime_text(*now))),
{
    let mut out: Vec<char> = Vec::new();
    push_str(&mut out, day_str(now.weekday));
    push_str(&mut out, " ");
    push_dec(&mut out, now.day as u128);
    push_str(&mut out, " ");
    push_str(&mut out, month_str(now.month));
    push_str(&mut out, " ");
    push_signed_dec(&mut out, now.year as i128);
    push_str(&mut out, " | ");
    push_dec(&mut out, now.hour as u128);
    push_str(&mut out, ":");
    push_dec2(&mut out, now.minute as u128);
    assert(out@ =~= datetime_text(*now));
    Some(Entry::new("datetime", string_of(&out)))
}

/// The content of a one-line sysfs attribute without its final character,
/// the line break.
pub open spec fn line_body(content: Seq<char>) -> Seq<char> {
    if content.len() > 0 {
        content.drop_last()
    } else {
        content
    }
}

/// The attribute's line without its trailing line break.
pub fn attribute_line(content: &str) -> (r: String)
    ensures
        r@ == line_body(content@),
{
    let mut cs = chars_of(content);
    if cs.len() > 0 {
        cs.pop();
    }
    string_of(&cs)
}

pub open spec fn is_digit(c: char) -> bool {
    '0' <= c && c <= '9'
}

/// The value of a string of decimal digits.
pub open spec fn digits_value(s: Seq<char>) -> nat
    decreases s.len(),
{
    if s.len() == 0 {
        0
    } else {
        digits_value(s.drop_last()) * 10 + (s.last() as u32 - '0' as u32) as nat
    }
}

/// The text after a leading `+`, if there is one.
pub open spec fn sign_stripped(s: Seq<char>) -> Seq<char> {
    if s.len() > 0 && s[0] == '+' {
        s.drop_first()
    } else {
        s
    }
}

pub open spec fn all_digits(d: Seq<char>) -> bool {
    forall|i: int| 0 <= i < d.len() ==> is_digit(#[trigger] d[i])
}

/// The digits of an unsigned decimal number: one or more, after an optional `+`.
pub open spec fn number_digits(s: Seq<char>) -> Option<Seq<char>> {
    let d = sign_stripped(s);
    if d.len() > 0 && all_digits(d) {
        Some(d)
    } else {
        None
    }
}

/// The unsigned 64-bit number an attribute's line holds, if it holds one.
pub open spec fn reading_value(content: Seq<char>) -> Option<u64> {
    match number_digits(line_body(content)) {
        Some(d) => if digits_value(d) <= u64::MAX {
            Some(digits_value(d) as u64)
        } else {
            None
        },
        None => None,
    }
}

/// Reads the unsigned number on a sysfs attribute's single line: optional
/// `+`, then decimal digits, fitting in 64 bits.
pub fn parse_reading(content: &str) -> (r: Option<u64>)
    ensures
        r == reading_value(content@),
{
    let mut cs = chars_of(content);
    if cs.len() > 0 {
        cs.pop();
    }
    let ghost body = cs@;
    assert(body =~= line_body(content@));
    let start: usize = if cs.len() > 0 && cs[0] == '+' { 1 } else { 0 };
    let ghost d = body.subrange(start as int, body.len() as int);
    assert(start == 1 ==> d =~= body.drop_first());
    assert(start == 0 ==> d =~= body);
    if start >= cs.len() {
        return None;
    }
    let mut value: u64 = 0;
    let mut i: usize = start;
    while i < cs.len()
        invariant
            start <= i <= cs.len(),
            cs@ == body,
            body == line_body(content@),
            d == sign_stripped(body),
            d.len() > 0,
            d == body.subrange(start as int, body.len() as int),
            forall|j: int| start <= j < i ==> is_digit(#[trigger] body[j]),
            value as nat == digits_value(body.subrange(start as int, i as int)),
        decreases cs.len() - i,
    {
        let c = cs[i];
        if !('0' <= c && c <= '9') {
            assert(!is_digit(d[i - start]));
            assert(!all_digits(d));
            return None;
        }
        let digit: u64 = (c as u32 - '0' as u32) as u64;
        assert(body.subrange(start as int, i + 1).drop_last() =~= body.subrange(start as int, i as int));
        if value > (u64::MAX - digit) / 10 {
            proof {
                let rest = body.subrange(i + 1, body.len() as int);
                lemma_digits_grow(body.subrange(start as int, i + 1), rest);
                assert(body.subrange(start as int, i + 1) + rest =~= d);
                assert(digits_value(body.subrange(start as int, i + 1)) == value * 10 + digit);
                assert(value * 10 + digit > u64::MAX) by (nonlinear_arith)
                    requires
                        value > (u64::MAX - digit) / 10,
                        digit <= 9,
                ;
            }
            return None;
        }
        value = value * 10 + digit;
        i = i + 1;
    }
    assert(body.subrange(start as int, cs.len() as int) =~= d);
    Some(value)
}

proof fn lemma_digits_grow(a: Seq<char>, b: Seq<char>)
    ensures
        digits_value(a + b) >= digits_value(a),
    decreases b.len(),
{
    if b.len() > 0 {
        assert((a + b).drop_last() =~= a + b.drop_last());
        lemma_digits_grow(a, b.drop_last());
    }
}

} // verus!
