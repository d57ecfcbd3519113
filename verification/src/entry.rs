//! Entries: one journaled moment each.

use crate::clock::read_clock;
use crate::tags::{extract_tags, tags_of};
use crate::timestamp::{ClockReading, Timestamp, TimestampView};
use vstd::prelude::*;
use vstd::string::*;

verus! {

/// What an [`Entry`] stands for: when it was written, and its text. The
/// tags are no part of it: they follow from the text.
pub struct EntryView {
    pub timestamp: TimestampView,
    pub text: Seq<char>,
}

impl EntryView {
    /// An entry is in order when its timestamp is.
    pub open spec fn wf(self) -> bool {
        self.timestamp.wf()
    }

    /// The tags of the entry: the words of its text that begin with `#`.
    pub open spec fn tags(self) -> Seq<Seq<char>> {
        tags_of(self.text)
    }
}

/// An entry of the journal: a timestamp, a text, and the tags of the text.
/// The tags are set when the entry is made and cannot be changed apart from
/// the text.
#[derive(Debug, PartialEq, Eq)]
pub struct Entry {
    date: Timestamp,
    text: String,
    tags: Vec<String>,
}

impl Clone for Entry {
    fn clone(&self) -> (r: Entry)
        ensures
            r@ == self@,
    {
        proof {
            use_type_invariant(self);
        }
        let mut tags: Vec<String> = Vec::new();
        let mut i: usize = 0;
        while i < self.tags.len()
            invariant
                i <= self.tags.len(),
                tags.len() == i,
                forall|k: int| 0 <= k < i ==> (#[trigger] tags@[k])@ == self.tags@[k]@,
            decreases self.tags.len() - i,
        {
            tags.push(self.tags[i].clone());
            i += 1;
        }
        assert(tags.deep_view() =~= self.tags.deep_view());
        Entry { date: self.date, text: self.text.clone(), tags }
    }
}

impl View for Entry {
    type V = EntryView;

    closed spec fn view(&self) -> EntryView {
        EntryView { timestamp: self.date@, text: self.text@ }
    }
}

impl DeepView for Entry {
    type V = EntryView;

    open spec fn deep_view(&self) -> EntryView {
        self@
    }
}

impl Entry {
    #[verifier::type_invariant]
    spec fn inv(self) -> bool {
        &&& self.date@.wf()
        &&& self.tags.deep_view() == tags_of(self.text@)
    }

    /// When the entry was written.
    pub fn date(&self) -> (r: Timestamp)
        ensures
            r@ == self@.timestamp,
            r@.wf(),
    {
        proof {
            use_type_invariant(self);
        }
        self.date
    }

    /// The text of the entry, as it was given.
    pub fn text(&self) -> (r: &str)
        ensures
            r@ == self@.text,
    {
        self.text.as_str()
    }

    /// The tags of the entry, in the order in which they stand in the text.
    pub fn tags(&self) -> (r: &Vec<String>)
        ensures
            r.deep_view() == self@.tags(),
    {
        proof {
            use_type_invariant(self);
        }
        &self.tags
    }

    /// Puts an entry together from its parts.
    pub(crate) fn assemble(date: Timestamp, text: String, tags: Vec<String>) -> (e: Entry)
        requires
            tags.deep_view() == tags_of(text@),
        ensures
            e@ == (EntryView { timestamp: date@, text: text@ }),
            e@.wf(),
    {
        proof {
            use_type_invariant(&date);
        }
        Entry { date, text, tags }
    }
}

/// The entry with the text `raw_text`, written at `date`. Any text is
/// taken, the empty one too; the tags are the words of the text that begin
/// with `#`.
pub fn make_entry(raw_text: &str, date: Timestamp) -> (e: Entry)
    ensures
        e@ == (EntryView { timestamp: date@, text: raw_text@ }),
        e@.wf(),
{
    let tags = extract_tags(raw_text);
    Entry::assemble(date, String::from_str(raw_text), tags)
}

/// The entry with the text `raw_text`, written at the time that `reading`
/// names; none where there is no reading, or where the reading names no
/// time: a field out of its range, or a day that its month does not have.
pub fn entry_at(raw_text: &str, reading: Option<ClockReading>) -> (r: Option<Entry>)
    ensures
        r is Some <==> (reading matches Some(c) && c.in_range() && c.instant().wf()),
        r matches Some(e) ==> e@ == (EntryView {
            timestamp: reading.unwrap().instant(),
            text: raw_text@,
        }) && e@.wf(),
{
    match reading {
        None => None,
        Some(c) => match Timestamp::from_clock(c) {
            None => None,
            Some(date) => Some(make_entry(raw_text, date)),
        },
    }
}

/// The entry with the text `entry`, written now; none where the clock
/// cannot be read.
pub fn parse_entry(entry: &str) -> (r: Option<Entry>)
    ensures
        r matches Some(e) ==> e@.text == entry@ && e@.wf(),
{
    entry_at(entry, read_clock())
}

} // verus!
