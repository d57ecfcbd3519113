//! The record of an entry: one line of text.
//!
//! A record is a JSON object on one line, with the fields `date`, `text` and
//! `tags` in this order and nothing between the tokens:
//!
//! ```text
//! {"date":"2023-04-01T09:30:00Z","text":"buy milk #errand","tags":["#errand"]}
//! ```
//!
//! Every entry has one record, and decoding accepts the record of an entry
//! and nothing else. So a line that was cut short, or changed by hand into
//! something that encoding would not have written, is refused.

use crate::entry::{Entry, EntryView};
use crate::quote::{
    escape, law_escape_is_printable, law_reading_a_quoted_string, law_quoted_string_read_is_written,
    parse_quoted, quote, quoted, read_quoted,
};
use crate::tags::{extract_tags, tags_of};
use crate::text::{chars_of, holds_at, is_printable, lemma_printable_join, push_char};
use crate::timestamp::{
    law_reading_a_timestamp, law_timestamp_read_is_written, law_timestamp_text_is_printable,
    parse_timestamp, push_timestamp, read_timestamp, timestamp_text,
};
use vstd::prelude::*;
use vstd::string::*;

verus! {

/// A line that is the record of no entry.
#[derive(Clone, Copy, Debug, PartialEq, Eq)]
pub struct MalformedRecord;

/// The opening of a record, up to the timestamp: `{"date":"`.
pub open spec fn date_key() -> Seq<char> {
    seq!['{', '"', 'd', 'a', 't', 'e', '"', ':', '"']
}

/// What stands between the timestamp and the text: `","text":`.
pub open spec fn text_key() -> Seq<char> {
    seq!['"', ',', '"', 't', 'e', 'x', 't', '"', ':']
}

/// What stands between the text and the tags: `,"tags":[`.
pub open spec fn tags_key() -> Seq<char> {
    seq![',', '"', 't', 'a', 'g', 's', '"', ':', '[']
}

/// The end of a record: `]}`.
pub open spec fn closing() -> Seq<char> {
    seq![']', '}']
}

/// Strings in quotes with commas between them.
pub open spec fn list_text(items: Seq<Seq<char>>) -> Seq<char>
    decreases items.len(),
{
    if items.len() == 0 {
        Seq::empty()
    } else if items.len() == 1 {
        quoted(items[0])
    } else {
        list_text(items.drop_last()) + seq![','] + quoted(items.last())
    }
}

/// The last part of a record, from the comma behind the text on.
pub open spec fn tags_text(tags: Seq<Seq<char>>) -> Seq<char> {
    tags_key() + list_text(tags) + closing()
}

/// The record of an entry.
#[verifier::opaque]
pub open spec fn record_text(e: EntryView) -> Seq<char> {
    date_key() + timestamp_text(e.timestamp) + text_key() + quoted(e.text) + tags_text(e.tags())
}

/// The entry that a line holds, if it holds one: the line is read from left
/// to right, and its last part has to be what the tags of the text read
/// give.
#[verifier::opaque]
pub open spec fn decoded(line: Seq<char>) -> Option<EntryView> {
    if line.len() >= 9 && line.take(9) == date_key() {
        match parse_timestamp(line.skip(9)) {
            None => None,
            Some((t, a)) => {
                if 9 + a + 9 <= line.len() && line.subrange(9 + a, 9 + a + 9) == text_key() {
                    match parse_quoted(line.skip(9 + a + 9)) {
                        None => None,
                        Some((text, b)) => {
                            if line.skip(9 + a + 9 + b) == tags_text(tags_of(text)) {
                                Some(EntryView { timestamp: t, text })
                            } else {
                                None
                            }
                        },
                    }
                } else {
                    None
                }
            },
        }
    } else {
        None
    }
}

/// The parts of a line that is made of five.
proof fn lemma_five_parts(
    line: Seq<char>,
    opening: Seq<char>,
    stamp: Seq<char>,
    key: Seq<char>,
    text: Seq<char>,
    ending: Seq<char>,
)
    requires
        line == opening + stamp + key + text + ending,
    ensures
        line.take(opening.len() as int) == opening,
        line.skip(opening.len() as int) == stamp + (key + text + ending),
        line.subrange(
            (opening.len() + stamp.len()) as int,
            (opening.len() + stamp.len() + key.len()) as int,
        ) == key,
        line.skip((opening.len() + stamp.len() + key.len()) as int) == text + ending,
        line.skip((opening.len() + stamp.len() + key.len() + text.len()) as int) == ending,
{
    let a = opening.len() as int;
    let b = a + stamp.len();
    let c = b + key.len();
    let d = c + text.len();
    assert(line.take(a) =~= opening);
    assert(line.skip(a) =~= stamp + (key + text + ending));
    assert(line.subrange(b, c) =~= key);
    assert(line.skip(c) =~= text + ending);
    assert(line.skip(d) =~= ending);
}

/// A line is the five parts that it is cut into.
proof fn lemma_cut_in_five(line: Seq<char>, a: int, b: int)
    requires
        0 <= a,
        0 <= b,
        9 + a + 9 + b <= line.len(),
    ensures
        line == line.take(9) + line.skip(9).take(a) + line.subrange(9 + a, 9 + a + 9) + line.skip(
            9 + a + 9,
        ).take(b) + line.skip(9 + a + 9 + b),
{
    assert(line =~= line.take(9) + line.skip(9).take(a) + line.subrange(9 + a, 9 + a + 9)
        + line.skip(9 + a + 9).take(b) + line.skip(9 + a + 9 + b));
}

/// Decoding the record of an entry gives the entry.
pub proof fn law_round_trip(e: EntryView)
    requires
        e.wf(),
    ensures
        decoded(record_text(e)) == Some(e),
{
    reveal(record_text);
    let tt = timestamp_text(e.timestamp);
    let q = quoted(e.text);
    let g = tags_text(e.tags());
    law_reading_a_timestamp(e.timestamp, text_key() + q + g);
    law_reading_a_quoted_string(e.text, g);
    lemma_decoded_of_parts(e, tt, q, g);
}

/// A line put together from parts that read back as an entry's timestamp
/// and text, and that ends as the tags of the text say, holds the entry.
proof fn lemma_decoded_of_parts(e: EntryView, tt: Seq<char>, q: Seq<char>, g: Seq<char>)
    requires
        parse_timestamp(tt + (text_key() + q + g)) == Some((e.timestamp, tt.len() as int)),
        parse_quoted(q + g) == Some((e.text, q.len() as int)),
        g == tags_text(tags_of(e.text)),
    ensures
        decoded(date_key() + tt + text_key() + q + g) == Some(e),
{
    reveal(decoded);
    let line = date_key() + tt + text_key() + q + g;
    lemma_five_parts(line, date_key(), tt, text_key(), q, g);
    assert(date_key().len() == 9 && text_key().len() == 9);
}

/// A line that holds an entry is the record of that entry.
pub proof fn law_decoded_is_record(line: Seq<char>)
    requires
        decoded(line) is Some,
    ensures
        decoded(line).unwrap().wf(),
        line == record_text(decoded(line).unwrap()),
{
    reveal(decoded);
    reveal(record_text);
    let (t, a) = parse_timestamp(line.skip(9)).unwrap();
    let (text, b) = parse_quoted(line.skip(9 + a + 9)).unwrap();
    law_timestamp_read_is_written(line.skip(9));
    law_quoted_string_read_is_written(line.skip(9 + a + 9));
    lemma_cut_in_five(line, a, b);
}

/// Two entries with one record are one entry.
pub proof fn law_one_record_one_entry(a: EntryView, b: EntryView)
    requires
        a.wf(),
        b.wf(),
        record_text(a) == record_text(b),
    ensures
        a == b,
{
    law_round_trip(a);
    law_round_trip(b);
}

/// Texts that are equal behind a common beginning.
proof fn lemma_same_front(front: Seq<char>, x: Seq<char>, y: Seq<char>)
    requires
        front + x == front + y,
    ensures
        x == y,
{
    assert(x =~= (front + x).skip(front.len() as int));
    assert(y =~= (front + y).skip(front.len() as int));
}

/// No record is the beginning of a longer one: a record with something
/// behind it is no record.
pub proof fn law_no_record_begins_another(a: EntryView, b: EntryView, rest: Seq<char>)
    requires
        a.wf(),
        b.wf(),
        record_text(b) == record_text(a) + rest,
    ensures
        rest.len() == 0,
        a == b,
{
    reveal(record_text);
    let ta = timestamp_text(a.timestamp);
    let tb = timestamp_text(b.timestamp);
    let qa = quoted(a.text);
    let qb = quoted(b.text);
    let ga = tags_text(a.tags());
    let gb = tags_text(b.tags());
    let after_ta = text_key() + (qa + (ga + rest));
    let after_tb = text_key() + (qb + gb);
    assert(date_key() + (ta + after_ta) =~= record_text(a) + rest);
    assert(date_key() + (tb + after_tb) =~= record_text(b));
    lemma_same_front(date_key(), ta + after_ta, tb + after_tb);
    law_reading_a_timestamp(a.timestamp, after_ta);
    law_reading_a_timestamp(b.timestamp, after_tb);
    assert(a.timestamp == b.timestamp);
    lemma_same_front(ta, after_ta, after_tb);
    lemma_same_front(text_key(), qa + (ga + rest), qb + gb);
    law_reading_a_quoted_string(a.text, ga + rest);
    law_reading_a_quoted_string(b.text, gb);
    assert(a.text == b.text);
    lemma_same_front(qa, ga + rest, gb);
    assert((ga + rest).len() == gb.len());
}

/// A string in quotes is printable.
proof fn lemma_quoted_is_printable(s: Seq<char>)
    ensures
        is_printable(quoted(s)),
{
    law_escape_is_printable(s);
    assert('"' as u32 == 0x22);
    assert(is_printable(seq!['"']));
    assert(is_printable(escape(s)));
    lemma_printable_join(seq!['"'], escape(s));
    lemma_printable_join(seq!['"'] + escape(s), seq!['"']);
}

/// A list of strings in quotes is printable.
proof fn lemma_list_is_printable(items: Seq<Seq<char>>)
    ensures
        is_printable(list_text(items)),
    decreases items.len(),
{
    if items.len() == 0 {
    } else if items.len() == 1 {
        lemma_quoted_is_printable(items[0]);
    } else {
        lemma_list_is_printable(items.drop_last());
        lemma_quoted_is_printable(items.last());
        assert(',' as u32 == 0x2c);
        assert(is_printable(seq![',']));
        lemma_printable_join(list_text(items.drop_last()), seq![',']);
        lemma_printable_join(list_text(items.drop_last()) + seq![','], quoted(items.last()));
    }
}

/// A record is one line: it holds no line feed, nor any other character
/// below the space.
pub proof fn law_record_is_one_line(e: EntryView)
    requires
        e.wf(),
    ensures
        is_printable(record_text(e)),
        forall|i: int| 0 <= i < record_text(e).len() ==> record_text(e)[i] != '\n',
{
    reveal(record_text);
    assert('{' as u32 == 0x7b && '"' as u32 == 0x22 && ':' as u32 == 0x3a && ',' as u32 == 0x2c
        && '[' as u32 == 0x5b && ']' as u32 == 0x5d && '}' as u32 == 0x7d);
    assert('d' as u32 == 0x64 && 'a' as u32 == 0x61 && 't' as u32 == 0x74 && 'e' as u32 == 0x65
        && 'x' as u32 == 0x78 && 'g' as u32 == 0x67 && 's' as u32 == 0x73);
    assert(is_printable(date_key()));
    assert(is_printable(text_key()));
    assert(is_printable(tags_key()));
    assert(is_printable(closing()));
    law_timestamp_text_is_printable(e.timestamp);
    lemma_quoted_is_printable(e.text);
    lemma_list_is_printable(e.tags());
    lemma_printable_join(tags_key(), list_text(e.tags()));
    lemma_printable_join(tags_key() + list_text(e.tags()), closing());
    lemma_printable_join(date_key(), timestamp_text(e.timestamp));
    lemma_printable_join(date_key() + timestamp_text(e.timestamp), text_key());
    lemma_printable_join(date_key() + timestamp_text(e.timestamp) + text_key(), quoted(e.text));
    lemma_printable_join(
        date_key() + timestamp_text(e.timestamp) + text_key() + quoted(e.text),
        tags_text(e.tags()),
    );
    assert('\n' as u32 == 0x0a);
}

/// Appends the last part of a record to `out`: the tags and the closing.
pub(crate) fn push_tags(out: &mut String, tags: &Vec<String>)
    ensures
        final(out)@ == old(out)@ + tags_text(tags.deep_view()),
{
    let ghost before = out@;
    let ghost items = tags.deep_view();
    proof {
        reveal_strlit(",\"tags\":[");
        reveal_strlit("]}");
    }
    out.append(",\"tags\":[");
    assert(out@ =~= before + tags_key());
    let mut i: usize = 0;
    assert(items.take(0) =~= Seq::<Seq<char>>::empty());
    assert(before + tags_key() + Seq::<char>::empty() =~= before + tags_key());
    while i < tags.len()
        invariant
            i <= tags.len(),
            items == tags.deep_view(),
            out@ == before + tags_key() + list_text(items.take(i as int)),
        decreases tags.len() - i,
    {
        if i > 0 {
            push_char(out, ',');
        }
        let item = quote(tags[i].as_str());
        out.append(item.as_str());
        proof {
            let done = items.take(i as int);
            let next = items.take(i + 1);
            assert(next.drop_last() =~= done);
            assert(next.last() == tags@[i as int]@);
            if i == 0 {
                assert(next[0] == tags@[0]@);
                assert(list_text(done) =~= Seq::<char>::empty());
            }
            assert(out@ =~= before + tags_key() + list_text(next));
        }
        i += 1;
    }
    assert(items.take(tags.len() as int) =~= items);
    out.append("]}");
    assert(out@ =~= before + tags_text(items));
}

/// The record of `entry`: one line, without a line feed in it or behind it.
pub fn encode(entry: &Entry) -> (line: String)
    ensures
        entry@.wf(),
        line@ == record_text(entry@),
        forall|i: int| 0 <= i < line@.len() ==> line@[i] != '\n',
{
    let mut out = String::new();
    proof {
        reveal(record_text);
        reveal_strlit("{\"date\":\"");
        reveal_strlit("\",\"text\":");
    }
    out.append("{\"date\":\"");
    assert(out@ =~= date_key());
    let date = entry.date();
    push_timestamp(&mut out, &date);
    out.append("\",\"text\":");
    assert(out@ =~= date_key() + timestamp_text(entry@.timestamp) + text_key());
    let text = quote(entry.text());
    out.append(text.as_str());
    push_tags(&mut out, entry.tags());
    proof {
        law_record_is_one_line(entry@);
    }
    out
}

/// The entry whose record `line` is. A line that is the record of no entry
/// is refused: one that was cut short, one with other fields or in another
/// order, one whose tags are not those of its text, one with a timestamp
/// that is none.
pub fn decode(line: &str) -> (r: Result<Entry, MalformedRecord>)
    ensures
        match r {
            Ok(e) => e@.wf() && line@ == record_text(e@) && decoded(line@) == Some(e@),
            Err(_) => decoded(line@) is None && forall|v: EntryView|
                v.wf() ==> line@ != #[trigger] record_text(v),
        },
{
    let chars = chars_of(line);
    let r = decode_chars(&chars);
    proof {
        match r {
            Ok(_) => {
                law_decoded_is_record(line@);
            },
            Err(_) => {
                assert forall|v: EntryView| v.wf() implies line@ != #[trigger] record_text(v) by {
                    law_round_trip(v);
                }
            },
        }
    }
    r
}

/// Reads the entry that the characters `s` hold.
fn decode_chars(s: &Vec<char>) -> (r: Result<Entry, MalformedRecord>)
    ensures
        match r {
            Ok(e) => decoded(s@) == Some(e@),
            Err(_) => decoded(s@) is None,
        },
{
    proof {
        reveal(decoded);
        reveal_strlit("{\"date\":\"");
        reveal_strlit("\",\"text\":");
    }
    let opening = chars_of("{\"date\":\"");
    let between = chars_of("\",\"text\":");
    assert(opening@ =~= date_key());
    assert(between@ =~= text_key());
    if !holds_at(s, 0, &opening) {
        assert(s@.len() >= 9 ==> s@.take(9) =~= s@.subrange(0, 9));
        return Err(MalformedRecord);
    }
    assert(s@.take(9) =~= s@.subrange(0, 9));
    let (date, at_key) = match read_timestamp(s, 9) {
        Some(found) => found,
        None => {
            return Err(MalformedRecord);
        },
    };
    if !holds_at(s, at_key, &between) {
        return Err(MalformedRecord);
    }
    let (text, at_tags) = match read_quoted(s, at_key + 9) {
        Some(found) => found,
        None => {
            return Err(MalformedRecord);
        },
    };
    let tags = extract_tags(text.as_str());
    let mut expected = String::new();
    push_tags(&mut expected, &tags);
    assert(expected@ =~= tags_text(tags_of(text@)));
    let ending = chars_of(expected.as_str());
    let rest_len: usize = s.len() - at_tags;
    if rest_len != ending.len() || !holds_at(s, at_tags, &ending) {
        assert(s@.skip(at_tags as int) != tags_text(tags_of(text@))) by {
            if rest_len == ending.len() {
                assert(s@.skip(at_tags as int) =~= s@.subrange(
                    at_tags as int,
                    at_tags + ending.len(),
                ));
            }
        }
        return Err(MalformedRecord);
    }
    assert(s@.skip(at_tags as int) =~= s@.subrange(at_tags as int, at_tags + ending.len()));
    Ok(Entry::assemble(date, text, tags))
}

} // verus!
