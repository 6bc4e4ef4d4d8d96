//! The display entry every reader produces, and the JSON stream they are
//! emitted in.

use vstd::prelude::*;

use crate::text::{json_escape, push_json_escaped, push_str, string_of};

verus! {

/// The fixed highlight palette.
#[derive(Clone, Copy, Debug, PartialEq, Eq, Structural)]
pub enum Color {
    Green,
    Purple,
    Red,
    Turquoise,
    Yellow,
}

/// The `#RRGGBB` literal of a palette color.
pub open spec fn color_hex(c: Color) -> Seq<char> {
    match c {
        Color::Green => "#00FF00"@,
        Color::Purple => "#FF00FF"@,
        Color::Red => "#FF0000"@,
        Color::Turquoise => "#00FFFF"@,
        Color::Yellow => "#FFFF00"@,
    }
}

impl Color {
    pub fn hex(&self) -> (r: &'static str)
        ensures
            r@ == color_hex(*self),
    {
        match self {
            Color::Green => "#00FF00",
            Color::Purple => "#FF00FF",
            Color::Red => "#FF0000",
            Color::Turquoise => "#00FFFF",
            Color::Yellow => "#FFFF00",
        }
    }
}

/// One display record: a stable identifier, the text shown, and an optional
/// highlight color.
pub struct Entry {
    pub color: Option<Color>,
    pub name: String,
    pub full_text: String,
}

/// The `"color"` line of an entry's JSON object; empty when it has no color.
pub open spec fn color_json(color: Option<Color>) -> Seq<char> {
    match color {
        Some(c) => "\n    \"color\": \""@ + color_hex(c) + "\","@,
        None => Seq::empty(),
    }
}

/// The JSON object for an entry with the given color, name and text.
pub open spec fn entry_json(color: Option<Color>, name: Seq<char>, full_text: Seq<char>) -> Seq<char> {
    "{"@ + color_json(color) + "\n    \"name\": \""@ + json_escape(name) + "\",\n    \"full_text\": \""@
        + json_escape(full_text) + "\"\n}"@
}

impl Entry {
    pub open spec fn json(&self) -> Seq<char> {
        entry_json(self.color, self.name@, self.full_text@)
    }

    /// An uncolored entry.
    pub fn new(name: &str, full_text: String) -> (r: Entry)
        ensures
            r.color == None::<Color>,
            r.name@ == name@,
            r.full_text@ == full_text@,
    {
        Entry { color: None, name: name.to_owned(), full_text }
    }

    /// An entry highlighted in `color`.
    pub fn new_colored(name: &str, full_text: String, color: Color) -> (r: Entry)
        ensures
            r.color == Some(color),
            r.name@ == name@,
            r.full_text@ == full_text@,
    {
        Entry { color: Some(color), name: name.to_owned(), full_text }
    }

    /// Renders the entry as a JSON object with keys `color` (only when the
    /// entry has one), `name` and `full_text`.
    pub fn to_json(&self) -> (r: String)
        ensures
            r@ == self.json(),
    {
        let mut out: Vec<char> = Vec::new();
        push_str(&mut out, "{");
        match self.color {
            Some(c) => {
                push_str(&mut out, "\n    \"color\": \"");
                push_str(&mut out, c.hex());
                push_str(&mut out, "\",");
            },
            None => {},
        }
        push_str(&mut out, "\n    \"name\": \"");
        push_json_escaped(&mut out, self.name.as_str());
        push_str(&mut out, "\",\n    \"full_text\": \"");
        push_json_escaped(&mut out, self.full_text.as_str());
        push_str(&mut out, "\"\n}");
        assert(out@ =~= self.json());
        string_of(&out)
    }
}

/// What a reader's result shows: `None` when it yields no entry, else the
/// entry's name, color and text.
pub open spec fn shown(r: Option<Entry>) -> Option<(Seq<char>, Option<Color>, Seq<char>)> {
    match r {
        Some(e) => Some((e.name@, e.color, e.full_text@)),
        None => None,
    }
}

/// The name, color and text of an entry.
pub open spec fn entry_view(e: Entry) -> (Seq<char>, Option<Color>, Seq<char>) {
    (e.name@, e.color, e.full_text@)
}

/// The entries of one emission, in display order.
pub struct Entries(pub Vec<Entry>);

/// The sequence holding the entry, if any.
pub open spec fn opt_seq(e: Option<Entry>) -> Seq<Entry> {
    match e {
        Some(x) => seq![x],
        None => Seq::empty(),
    }
}

impl Entries {
    /// Appends the entry, if there is one.
    pub fn add(&mut self, entry: Option<Entry>)
        ensures
            final(self).0@ == old(self).0@ + opt_seq(entry),
    {
        match entry {
            Some(e) => {
                self.0.push(e);
                assert(final(self).0@ =~= old(self).0@ + seq![e]);
            },
            None => {
                assert(self.0@ =~= old(self).0@ + Seq::<Entry>::empty());
            },
        }
    }

    /// Appends all of `entries`, in order.
    pub fn add_many(&mut self, entries: Vec<Entry>)
        ensures
            final(self).0@ == old(self).0@ + entries@,
    {
        let mut entries = entries;
        self.0.append(&mut entries);
    }
}

/// Puts one cycle's reader results together in display order: calendar, mail,
/// internet usage, network, volume, battery, date and time.
pub fn cycle_entries(
    calendar: Vec<Entry>,
    mail: Vec<Entry>,
    usage: Option<Entry>,
    network: Option<Entry>,
    volume: Option<Entry>,
    battery: Option<Entry>,
    datetime: Option<Entry>,
) -> (r: Vec<Entry>)
    ensures
        r@ == calendar@ + mail@ + opt_seq(usage) + opt_seq(network) + opt_seq(volume) + opt_seq(battery)
            + opt_seq(datetime),
{
    let mut entries = Entries(Vec::new());
    entries.add_many(calendar);
    entries.add_many(mail);
    entries.add(usage);
    entries.add(network);
    entries.add(volume);
    entries.add(battery);
    entries.add(datetime);
    assert(entries.0@ =~= calendar@ + mail@ + opt_seq(usage) + opt_seq(network) + opt_seq(volume)
        + opt_seq(battery) + opt_seq(datetime));
    entries.0
}

/// The protocol header written once before the first emission.
pub open spec fn preamble_text() -> Seq<char> {
    "{\"version\": 1}\n[\n[],\n"@
}

/// The protocol header: the version object, the opening of the endless array,
/// and an empty first emission.
pub fn preamble() -> (r: String)
    ensures
        r@ == preamble_text(),
{
    "{\"version\": 1}\n[\n[],\n".to_owned()
}

/// The JSON objects of `es`, separated by a comma and a newline.
pub open spec fn joined_json(es: Seq<Entry>) -> Seq<char>
    decreases es.len(),
{
    if es.len() == 0 {
        Seq::empty()
    } else if es.len() == 1 {
        es[0].json()
    } else {
        joined_json(es.drop_last()) + ",\n"@ + es.last().json()
    }
}

/// The text of one emission: an array literal of the entries' JSON objects.
pub open spec fn emission_text(es: Seq<Entry>) -> Seq<char> {
    "[\n"@ + joined_json(es) + "\n],\n"@
}

/// Renders one cycle's entries as the array written to the stream.
pub fn emission(entries: &Vec<Entry>) -> (r: String)
    ensures
        r@ == emission_text(entries@),
{
    let mut out: Vec<char> = Vec::new();
    push_str(&mut out, "[\n");
    let mut i: usize = 0;
    while i < entries.len()
        invariant
            i <= entries.len(),
            out@ == "[\n"@ + joined_json(entries@.take(i as int)),
        decreases entries.len() - i,
    {
        let ghost before = out@;
        if i > 0 {
            push_str(&mut out, ",\n");
        }
        let j = entries[i].to_json();
        push_str(&mut out, j.as_str());
        proof {
            let t = entries@.take(i + 1);
            assert(t.drop_last() =~= entries@.take(i as int));
            assert(t.last() == entries@[i as int]);
            if i == 0 {
                assert(out@ =~= "[\n"@ + joined_json(t));
            } else {
                assert(out@ =~= "[\n"@ + joined_json(t));
            }
        }
        i = i + 1;
    }
    assert(entries@.take(entries.len() as int) =~= entries@);
    push_str(&mut out, "\n],\n");
    string_of(&out)
}

} // verus!
