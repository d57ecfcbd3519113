//! The log: records in a file, one to a line, the oldest first.
//!
//! The library reads and writes no file. It works on the bytes of one: it
//! makes the bytes to append for an entry, and it reads the last entries out
//! of the bytes at the end of the log. Reading goes from the end towards the
//! start, line by line, and stops when it has as many entries as were asked
//! for, so a caller needs to hand in the end of the file only, and more of
//! it when told that the lines asked for begin further up. How much of the
//! end is looked at depends on the bytes that the lines asked for take, and
//! not on the length of the log.

use crate::codec::{
    decode, decoded, encode, law_decoded_is_record, law_no_record_begins_another,
    law_record_is_one_line, law_round_trip, record_text,
};
use crate::entry::{Entry, EntryView};
use crate::text::{is_printable, utf8_text};
use vstd::prelude::*;
use vstd::slice::*;
use vstd::string::*;
use vstd::utf8::*;

verus! {

/// The byte that ends a line.
pub const LINE_END: u8 = 10;

/// A line of the log that holds no entry, by the place of its first byte.
#[derive(Clone, Copy, Debug, PartialEq, Eq)]
pub struct PartialDecodeError {
    pub offset: u64,
}

/// What reading the end of a log came to.
#[derive(Debug, PartialEq, Eq)]
pub enum TailStep {
    /// The entries asked for, the oldest first.
    Done(Vec<Entry>),
    /// One of the lines read holds no entry.
    Failed(PartialDecodeError),
    /// The lines asked for begin before the bytes that were given.
    NeedMore,
}

/// What a [`TailStep`] stands for.
pub enum TailView {
    Done(Seq<EntryView>),
    Failed(nat),
    NeedMore,
}

impl View for TailStep {
    type V = TailView;

    open spec fn view(&self) -> TailView {
        match self {
            TailStep::Done(entries) => TailView::Done(entries.deep_view()),
            TailStep::Failed(e) => TailView::Failed(e.offset as nat),
            TailStep::NeedMore => TailView::NeedMore,
        }
    }
}

/// The bytes that an entry adds to the log: its record and a line end.
pub open spec fn record_bytes(e: EntryView) -> Seq<u8> {
    encode_utf8(record_text(e)).push(LINE_END)
}

/// The log that holds `entries`, written one after the other.
pub open spec fn log_of(entries: Seq<EntryView>) -> Seq<u8>
    decreases entries.len(),
{
    if entries.len() == 0 {
        Seq::empty()
    } else {
        log_of(entries.drop_last()) + record_bytes(entries.last())
    }
}

/// Where the last line of `log` ends: before the line end that closes the
/// log, or with the log where none closes it.
pub open spec fn line_end(log: Seq<u8>) -> int {
    if log.len() > 0 && log.last() == LINE_END {
        log.len() - 1
    } else {
        log.len() as int
    }
}

/// Where the line that ends at `end` begins: behind the nearest line end
/// before `end`, or at the start of the log.
pub open spec fn line_start(log: Seq<u8>, end: int) -> int
    decreases end,
{
    if end <= 0 {
        0
    } else if log[end - 1] == LINE_END {
        end
    } else {
        line_start(log, end - 1)
    }
}

/// The entry that the bytes of a line hold, if they are the record of one.
pub open spec fn line_entry(line: Seq<u8>) -> Option<EntryView> {
    if valid_utf8(line) {
        decoded(decode_utf8(line))
    } else {
        None
    }
}

/// Reading the last `n` entries out of `window`, the bytes of a log from
/// its byte `base` on. The lines are read from the last towards the first.
/// A line that begins where the window begins is taken for whole only if
/// the window begins with the log. The first line met that holds no entry
/// ends the reading.
pub open spec fn scan(window: Seq<u8>, base: nat, n: nat) -> TailView
    decreases window.len(),
{
    if n == 0 {
        TailView::Done(Seq::empty())
    } else if window.len() == 0 {
        if base == 0 {
            TailView::Done(Seq::empty())
        } else {
            TailView::NeedMore
        }
    } else {
        let end = line_end(window);
        let start = line_start(window, end);
        if start == 0 && base > 0 {
            TailView::NeedMore
        } else {
            proof {
                lemma_line_start_bounds(window, end);
            }
            match line_entry(window.subrange(start, end)) {
                None => TailView::Failed((base + start) as nat),
                Some(e) => match scan(window.take(start), base, (n - 1) as nat) {
                    TailView::Done(older) => TailView::Done(older.push(e)),
                    other => other,
                },
            }
        }
    }
}

/// Reading the last `n` entries out of a whole log: the entries, the oldest
/// first, or the place of the line that holds none.
pub open spec fn tail_of(log: Seq<u8>, n: nat) -> TailView {
    scan(log, 0, n)
}

/// The last `n` of `entries`, or all of them where they are fewer.
pub open spec fn last_n(entries: Seq<EntryView>, n: nat) -> Seq<EntryView> {
    if n >= entries.len() {
        entries
    } else {
        entries.subrange(entries.len() - n, entries.len() as int)
    }
}

/// A line begins at or before its end, behind a line end or at the start,
/// and holds no line end.
pub proof fn lemma_line_start_bounds(log: Seq<u8>, end: int)
    requires
        0 <= end <= log.len(),
    ensures
        0 <= line_start(log, end) <= end,
        line_start(log, end) > 0 ==> log[line_start(log, end) - 1] == LINE_END,
        forall|i: int| line_start(log, end) <= i < end ==> log[i] != LINE_END,
        end > 0 && log[end - 1] != LINE_END ==> line_start(log, end) < end,
    decreases end,
{
    if end > 0 && log[end - 1] != LINE_END {
        lemma_line_start_bounds(log, end - 1);
    }
}

/// The place behind a line end, with no line end from there to `end`, is
/// where the line that ends at `end` begins.
proof fn lemma_line_start_is(log: Seq<u8>, start: int, end: int)
    requires
        0 <= start <= end <= log.len(),
        start > 0 ==> log[start - 1] == LINE_END,
        forall|i: int| start <= i < end ==> log[i] != LINE_END,
    ensures
        line_start(log, end) == start,
    decreases end - start,
{
    if start < end {
        lemma_line_start_is(log, start, end - 1);
    }
}

/// Where a line begins depends on the bytes before its end only.
proof fn lemma_line_start_of_prefix(log: Seq<u8>, m: int, end: int)
    requires
        0 <= end <= m <= log.len(),
    ensures
        line_start(log.take(m), end) == line_start(log, end),
    decreases end,
{
    if end > 0 {
        if log[end - 1] != LINE_END {
            lemma_line_start_of_prefix(log, m, end - 1);
        }
    }
}

/// A line that begins behind the start of a window begins at the same byte
/// of the log.
proof fn lemma_line_start_in_window(log: Seq<u8>, base: int, end: int)
    requires
        0 <= base <= log.len(),
        0 <= end <= log.len() - base,
        line_start(log.skip(base), end) > 0,
    ensures
        line_start(log, base + end) == base + line_start(log.skip(base), end),
    decreases end,
{
    let w = log.skip(base);
    if end > 0 {
        if w[end - 1] != LINE_END {
            lemma_line_start_in_window(log, base, end - 1);
        }
    }
}

/// An empty log has no entries, however many are asked for.
pub proof fn law_empty_log_has_no_entries(n: nat)
    ensures
        tail_of(Seq::<u8>::empty(), n) == TailView::Done(Seq::<EntryView>::empty()),
{
}

/// Reading a whole log never asks for more.
pub proof fn law_whole_log_suffices(log: Seq<u8>, n: nat)
    ensures
        tail_of(log, n) !is NeedMore,
    decreases log.len(),
{
    if n > 0 && log.len() > 0 {
        let end = line_end(log);
        let start = line_start(log, end);
        lemma_line_start_bounds(log, end);
        law_whole_log_suffices(log.take(start), (n - 1) as nat);
    }
}

/// What reading a window gives, where it does not ask for more, is what
/// reading a longer window gives that ends as it does.
pub proof fn law_longer_window_agrees(window: Seq<u8>, base: nat, skipped: nat, n: nat)
    requires
        skipped <= window.len(),
        scan(window.skip(skipped as int), base + skipped, n) !is NeedMore,
    ensures
        scan(window, base, n) == scan(window.skip(skipped as int), base + skipped, n),
    decreases window.len(),
{
    let w = window.skip(skipped as int);
    if skipped == 0 {
        assert(w =~= window);
    } else if n > 0 && w.len() > 0 {
        let end = line_end(w);
        let start = line_start(w, end);
        lemma_line_start_bounds(w, end);
        lemma_line_start_in_window(window, skipped as int, end);
        assert(w.subrange(start, end) =~= window.subrange(skipped + start, skipped + end));
        let shorter = window.take(skipped + start);
        assert(shorter.skip(skipped as int) =~= w.take(start));
        if line_entry(w.subrange(start, end)) is Some {
            law_longer_window_agrees(shorter, base, skipped, (n - 1) as nat);
        }
    }
}

/// What reading the end of a log gives, where it does not ask for more, is
/// what reading the whole log gives.
pub proof fn law_window_suffices(log: Seq<u8>, base: nat, n: nat)
    requires
        base <= log.len(),
        scan(log.skip(base as int), base, n) !is NeedMore,
    ensures
        tail_of(log, n) == scan(log.skip(base as int), base, n),
{
    law_longer_window_agrees(log, 0, base, n);
}

/// A log whose last line holds no entry is read as failed at that line,
/// whatever stands before it.
pub proof fn law_corrupt_tail_is_found(log: Seq<u8>, n: nat)
    requires
        log.len() > 0,
        n > 0,
        line_entry(log.subrange(line_start(log, line_end(log)), line_end(log))) is None,
    ensures
        tail_of(log, n) == TailView::Failed(line_start(log, line_end(log)) as nat),
{
}

/// Every byte that UTF-8 writes for a character from the space on is itself
/// no less than the space.
proof fn lemma_printable_scalar(c: char)
    requires
        c as u32 >= 0x20,
    ensures
        forall|i: int|
            0 <= i < encode_scalar(c as u32).len() ==> (#[trigger] encode_scalar(c as u32)[i])
                >= 0x20,
{
    let u = c as u32;
    assert(u >= 0x20 && u <= 0x7f ==> (u & 0x7f) == u) by (bit_vector);
    assert(forall|b: u8| (0xC0u8 | b) >= 0xC0u8) by (bit_vector);
    assert(forall|b: u8| (0xE0u8 | b) >= 0xE0u8) by (bit_vector);
    assert(forall|b: u8| (0xF0u8 | b) >= 0xF0u8) by (bit_vector);
    assert(forall|b: u8| (0x80u8 | b) >= 0x80u8) by (bit_vector);
}

/// The bytes of a text without characters below the space hold no byte
/// below the space: no line end among them.
proof fn lemma_printable_bytes(s: Seq<char>)
    requires
        is_printable(s),
    ensures
        forall|i: int| 0 <= i < encode_utf8(s).len() ==> (#[trigger] encode_utf8(s)[i]) >= 0x20,
    decreases s.len(),
{
    if s.len() > 0 {
        let head = encode_scalar(s[0] as u32);
        let rest = s.drop_first();
        lemma_printable_bytes(rest);
        lemma_printable_scalar(s[0]);
        assert forall|i: int| 0 <= i < encode_utf8(s).len() implies (#[trigger] encode_utf8(
            s,
        )[i]) >= 0x20 by {
            if i >= head.len() {
                assert(encode_utf8(s)[i] == encode_utf8(rest)[i - head.len()]);
            }
        }
    }
}

/// The bytes of an entry's record read back as the entry.
proof fn lemma_record_line(e: EntryView)
    requires
        e.wf(),
    ensures
        line_entry(encode_utf8(record_text(e))) == Some(e),
        forall|i: int|
            0 <= i < encode_utf8(record_text(e)).len() ==> (#[trigger] encode_utf8(
                record_text(e),
            )[i]) != LINE_END,
{
    let text = record_text(e);
    encode_utf8_valid_utf8(text);
    encode_utf8_decode_utf8(text);
    law_round_trip(e);
    law_record_is_one_line(e);
    lemma_printable_bytes(text);
}

/// A log written entry by entry reads back as its last `n` entries, the
/// oldest first: as all of them where it holds no more than `n`, and as none
/// where it is empty.
pub proof fn law_append_then_tail(entries: Seq<EntryView>, n: nat)
    requires
        forall|i: int| 0 <= i < entries.len() ==> (#[trigger] entries[i]).wf(),
    ensures
        tail_of(log_of(entries), n) == TailView::Done(last_n(entries, n)),
    decreases entries.len(),
{
    let log = log_of(entries);
    if n == 0 {
        assert(last_n(entries, n) =~= Seq::<EntryView>::empty());
    } else if entries.len() == 0 {
        assert(last_n(entries, n) =~= Seq::<EntryView>::empty());
    } else {
        let older = entries.drop_last();
        let e = entries.last();
        let before = log_of(older);
        let content = encode_utf8(record_text(e));
        lemma_record_line(e);
        let end = line_end(log);
        lemma_line_start_is(log, before.len() as int, end);
        assert(log.subrange(before.len() as int, end) =~= content);
        assert(log.take(before.len() as int) =~= before);
        law_append_then_tail(older, (n - 1) as nat);
        assert(last_n(older, (n - 1) as nat).push(e) =~= last_n(entries, n));
    }
}

/// Where valid UTF-8 begins with valid UTF-8, the rest is valid too, and the
/// characters of the whole are those of the beginning and those of the rest.
proof fn lemma_utf8_front(bytes: Seq<u8>, k: int)
    requires
        valid_utf8(bytes),
        0 <= k <= bytes.len(),
        valid_utf8(bytes.take(k)),
    ensures
        valid_utf8(bytes.skip(k)),
        decode_utf8(bytes) == decode_utf8(bytes.take(k)) + decode_utf8(bytes.skip(k)),
    decreases k,
{
    let front = bytes.take(k);
    if k == 0 {
        assert(bytes.skip(0) =~= bytes);
    } else {
        let len = length_of_first_scalar(front);
        let after = bytes.skip(len);
        assert(pop_first_scalar(front) =~= after.take(k - len));
        lemma_utf8_front(after, k - len);
        assert(after.skip(k - len) =~= bytes.skip(k));
    }
}

/// The bytes of a record, cut short anywhere, hold no entry.
pub proof fn law_cut_record_holds_no_entry(e: EntryView, k: int)
    requires
        e.wf(),
        0 <= k < encode_utf8(record_text(e)).len(),
    ensures
        line_entry(encode_utf8(record_text(e)).take(k)) is None,
{
    let full = record_text(e);
    let bytes = encode_utf8(full);
    let front = bytes.take(k);
    if line_entry(front) is Some {
        let a = line_entry(front).unwrap();
        law_decoded_is_record(decode_utf8(front));
        encode_utf8_valid_utf8(full);
        encode_utf8_decode_utf8(full);
        lemma_utf8_front(bytes, k);
        let rest = decode_utf8(bytes.skip(k));
        law_no_record_begins_another(a, e, rest);
    }
}

/// A log whose last record was cut short while it was written is read as
/// failed at that record, however many entries are asked for.
pub proof fn law_interrupted_append_is_found(
    entries: Seq<EntryView>,
    e: EntryView,
    k: int,
    n: nat,
)
    requires
        e.wf(),
        0 < k < encode_utf8(record_text(e)).len(),
        n > 0,
    ensures
        tail_of(log_of(entries) + encode_utf8(record_text(e)).take(k), n) == TailView::Failed(
            log_of(entries).len(),
        ),
{
    let before = log_of(entries);
    let content = encode_utf8(record_text(e));
    let cut = content.take(k);
    let log = before + cut;
    lemma_record_line(e);
    law_cut_record_holds_no_entry(e, k);
    lemma_line_start_is(log, before.len() as int, log.len() as int);
    assert(log.subrange(before.len() as int, log.len() as int) =~= cut);
}

/// How many line ends `log` holds before its byte `end`.
pub open spec fn line_ends_before(log: Seq<u8>, end: int) -> nat
    decreases end,
{
    if end <= 0 {
        0
    } else if log[end - 1] == LINE_END {
        line_ends_before(log, end - 1) + 1
    } else {
        line_ends_before(log, end - 1)
    }
}

/// A stretch without line ends adds none to the count.
proof fn lemma_line_ends_flat(log: Seq<u8>, start: int, end: int)
    requires
        0 <= start <= end <= log.len(),
        forall|i: int| start <= i < end ==> log[i] != LINE_END,
    ensures
        line_ends_before(log, end) == line_ends_before(log, start),
    decreases end - start,
{
    if start < end {
        lemma_line_ends_flat(log, start, end - 1);
    }
}

/// The count of line ends depends on the bytes counted only.
proof fn lemma_line_ends_of_prefix(log: Seq<u8>, m: int, end: int)
    requires
        0 <= end <= m <= log.len(),
    ensures
        line_ends_before(log.take(m), end) == line_ends_before(log, end),
    decreases end,
{
    if end > 0 {
        lemma_line_ends_of_prefix(log, m, end - 1);
    }
}

/// A window that holds `n` line ends before the end of its last line is
/// enough to read `n` entries: reading it does not ask for more. So what has
/// to be in hand of a log is its end from the `n`-th line end before the
/// last line on, however long the log is.
pub proof fn law_enough_lines_suffice(window: Seq<u8>, base: nat, n: nat)
    requires
        line_ends_before(window, line_end(window)) >= n,
    ensures
        scan(window, base, n) !is NeedMore,
    decreases window.len(),
{
    if n > 0 && window.len() > 0 {
        let end = line_end(window);
        let start = line_start(window, end);
        lemma_line_start_bounds(window, end);
        lemma_line_ends_flat(window, start, end);
        if start > 0 {
            let shorter = window.take(start);
            lemma_line_ends_of_prefix(window, start, start - 1);
            law_enough_lines_suffice(shorter, base, (n - 1) as nat);
        }
    }
}

/// Whether the last `size` bytes of `log` are enough to read its last `n`
/// entries: reading them does not ask for more.
pub open spec fn enough(log: Seq<u8>, n: nat, size: nat) -> bool {
    size <= log.len() && scan(log.skip(log.len() - size), (log.len() - size) as nat, n)
        !is NeedMore
}

/// How many bytes of the end of `log` are looked at to read its last `n`
/// entries, where `size` bytes are looked at first: the window grows until
/// it is enough, or is the whole log.
pub open spec fn reach(log: Seq<u8>, n: nat, size: nat) -> nat
    decreases log.len() - size,
{
    if size >= log.len() || enough(log, n, size) {
        size
    } else {
        reach(log, n, grown(size, log.len()))
    }
}

/// The most that is looked at of a log of which `needed` bytes are enough:
/// twice as many, and no fewer than are looked at first.
pub open spec fn reach_bound(needed: nat) -> nat {
    if 2 * needed < FIRST_WINDOW {
        FIRST_WINDOW as nat
    } else {
        2 * needed
    }
}

/// Where some bytes of the end of a log are enough, so are more of them.
pub proof fn law_enough_stays_enough(log: Seq<u8>, n: nat, size: nat, more: nat)
    requires
        enough(log, n, size),
        size <= more <= log.len(),
    ensures
        enough(log, n, more),
{
    let longer = log.skip(log.len() - more);
    assert(longer.skip(more - size) =~= log.skip(log.len() - size));
    law_longer_window_agrees(longer, (log.len() - more) as nat, (more - size) as nat, n);
}

/// Where `needed` bytes of the end of a log are enough, no window grown
/// from one within the bound passes the bound.
proof fn lemma_reach_is_bounded(log: Seq<u8>, n: nat, needed: nat, size: nat)
    requires
        enough(log, n, needed),
        size <= log.len(),
        size <= reach_bound(needed),
    ensures
        reach(log, n, size) <= reach_bound(needed),
        reach(log, n, size) <= log.len(),
    decreases log.len() - size,
{
    if size < log.len() && !enough(log, n, size) {
        if size >= needed {
            law_enough_stays_enough(log, n, needed, size);
        }
        lemma_reach_is_bounded(log, n, needed, grown(size, log.len()));
    }
}

/// What is looked at of a log to read its last `n` entries depends on how
/// many bytes of its end are enough for them, not on how long the log is:
/// where `needed` bytes are enough, no more than twice as many are looked
/// at, or than are looked at first.
pub proof fn law_reading_is_bounded(log: Seq<u8>, n: nat, needed: nat)
    requires
        enough(log, n, needed),
    ensures
        reach(log, n, grown(0, log.len())) <= reach_bound(needed),
        reach(log, n, grown(0, log.len())) <= log.len(),
{
    lemma_reach_is_bounded(log, n, needed, grown(0, log.len()));
}

/// A log of entries written one after the other is the log of the first of
/// them and then the log of the rest.
proof fn lemma_log_of_parts(a: Seq<EntryView>, b: Seq<EntryView>)
    ensures
        log_of(a + b) == log_of(a) + log_of(b),
    decreases b.len(),
{
    if b.len() == 0 {
        assert(a + b =~= a);
        assert(log_of(a) + log_of(b) =~= log_of(a));
    } else {
        lemma_log_of_parts(a, b.drop_last());
        assert((a + b).drop_last() =~= a + b.drop_last());
        assert(log_of(a) + (log_of(b.drop_last()) + record_bytes(b.last())) =~= (log_of(a)
            + log_of(b.drop_last())) + record_bytes(b.last()));
    }
}

/// The line ends of two stretches of bytes are counted one after the other.
proof fn lemma_line_ends_of_parts(a: Seq<u8>, b: Seq<u8>, k: int)
    requires
        0 <= k <= b.len(),
    ensures
        line_ends_before(a + b, a.len() + k) == line_ends_before(a, a.len() as int)
            + line_ends_before(b, k),
    decreases k,
{
    if k == 0 {
        assert((a + b).take(a.len() as int) =~= a);
        lemma_line_ends_of_prefix(a + b, a.len() as int, a.len() as int);
    } else {
        lemma_line_ends_of_parts(a, b, k - 1);
        assert((a + b)[a.len() + k - 1] == b[k - 1]);
    }
}

/// A log of entries holds as many line ends as entries, and ends with one.
proof fn lemma_line_ends_of_log(entries: Seq<EntryView>)
    requires
        forall|i: int| 0 <= i < entries.len() ==> (#[trigger] entries[i]).wf(),
    ensures
        line_ends_before(log_of(entries), log_of(entries).len() as int) == entries.len(),
        entries.len() > 0 ==> log_of(entries).len() > 0 && log_of(entries).last() == LINE_END,
    decreases entries.len(),
{
    if entries.len() > 0 {
        let older = entries.drop_last();
        let before = log_of(older);
        let record = record_bytes(entries.last());
        assert forall|i: int| 0 <= i < older.len() implies (#[trigger] older[i]).wf() by {
            assert(older[i] == entries[i]);
        }
        lemma_line_ends_of_log(older);
        lemma_record_line(entries.last());
        assert forall|i: int| 0 <= i < record.len() - 1 implies record[i] != LINE_END by {
            assert(record[i] == encode_utf8(record_text(entries.last()))[i]);
        }
        lemma_line_ends_flat(record, 0, record.len() - 1);
        assert(line_ends_before(record, record.len() as int) == 1);
        lemma_line_ends_of_parts(before, record, record.len() as int);
    }
}

/// What is looked at of a log of entries to read its last `n`, where it
/// holds more than `n`, depends on the bytes that the last `n` records
/// take, not on how long the log is or how many entries it holds: it is no
/// more than twice those bytes and two, or than is looked at first.
pub proof fn law_reading_records_is_bounded(entries: Seq<EntryView>, n: nat)
    requires
        forall|i: int| 0 <= i < entries.len() ==> (#[trigger] entries[i]).wf(),
        0 < n < entries.len(),
    ensures
        reach(log_of(entries), n, grown(0, log_of(entries).len())) <= reach_bound(
            (log_of(last_n(entries, n)).len() + 1) as nat,
        ),
{
    let log = log_of(entries);
    let older = entries.take(entries.len() - n);
    let newer = last_n(entries, n);
    let before = log_of(older);
    let after = log_of(newer);
    assert(older + newer =~= entries);
    lemma_log_of_parts(older, newer);
    assert forall|i: int| 0 <= i < older.len() implies (#[trigger] older[i]).wf() by {
        assert(older[i] == entries[i]);
    }
    assert forall|i: int| 0 <= i < newer.len() implies (#[trigger] newer[i]).wf() by {
        assert(newer[i] == entries[entries.len() - n + i]);
    }
    lemma_line_ends_of_log(older);
    lemma_line_ends_of_log(newer);
    let size = after.len() + 1;
    let window = log.skip(log.len() - size);
    assert(window =~= seq![LINE_END] + after) by {
        assert(log[before.len() - 1] == before.last());
    }
    assert(window.last() == after.last());
    lemma_line_ends_of_parts(seq![LINE_END], after, after.len() - 1);
    assert(line_ends_before(seq![LINE_END], 1) == 1) by {
        reveal_with_fuel(line_ends_before, 2);
    }
    law_enough_lines_suffice(window, (log.len() - size) as nat, n);
    law_reading_is_bounded(log, n, size as nat);
}

/// What was read from the older lines, with the entries of the newer lines
/// behind it.
pub open spec fn with_newer(older: TailView, newer: Seq<EntryView>) -> TailView {
    match older {
        TailView::Done(entries) => TailView::Done(entries + newer),
        other => other,
    }
}

/// Writes `entry` to the end of `log`: its record, and a line end.
pub fn write_entry(entry: &Entry, log: &mut Vec<u8>)
    ensures
        final(log)@ == old(log)@ + record_bytes(entry@),
{
    let line = encode(entry);
    let bytes = line.as_str().as_bytes();
    log.extend_from_slice(bytes);
    log.push(LINE_END);
}

/// The entry that the bytes of a line hold.
pub fn decode_line(line: &[u8]) -> (r: Option<Entry>)
    ensures
        match r {
            Some(e) => line_entry(line@) == Some(e@) && e@.wf(),
            None => line_entry(line@) is None,
        },
{
    match utf8_text(line) {
        None => None,
        Some(text) => {
            proof {
                encode_utf8_decode_utf8(text@);
            }
            match decode(text) {
                Ok(e) => Some(e),
                Err(_) => None,
            }
        },
    }
}

/// Where in `log` the line that ends at `end` begins.
pub(crate) fn find_line_start(log: &[u8], end: usize) -> (start: usize)
    requires
        end <= log.len(),
    ensures
        start == line_start(log@, end as int),
        start <= end,
{
    let mut i: usize = end;
    while i > 0 && log[i - 1] != LINE_END
        invariant
            i <= end <= log.len(),
            line_start(log@, end as int) == line_start(log@, i as int),
        decreases i,
    {
        i -= 1;
    }
    i
}

/// Turns `newest_first` round, into the oldest first.
fn oldest_first(newest_first: Vec<Entry>) -> (r: Vec<Entry>)
    ensures
        r.deep_view() == newest_first.deep_view().reverse(),
{
    let mut from = newest_first;
    let mut to: Vec<Entry> = Vec::new();
    let ghost all = from.deep_view();
    while from.len() > 0
        invariant
            to.deep_view() + from.deep_view().reverse() == all.reverse(),
        decreases from.len(),
    {
        let e = from.pop().unwrap();
        to.push(e);
    }
    to
}

/// How many bytes of the end of a log are read at first, where the log has
/// as many.
pub const FIRST_WINDOW: u64 = 4096;

/// How many bytes of the end of a log of `len` bytes to read after `size`
/// bytes were not enough: twice as many, and no fewer than are read at
/// first, but no more than the log has.
pub open spec fn grown(size: nat, len: nat) -> nat {
    let wanted = if 2 * size < FIRST_WINDOW {
        FIRST_WINDOW as nat
    } else {
        2 * size
    };
    if wanted < len {
        wanted
    } else {
        len
    }
}

/// How many bytes of the end of a log of `len` bytes to read at first.
pub fn first_window(len: u64) -> (size: u64)
    ensures
        size == grown(0, len as nat),
        size <= len,
{
    if len < FIRST_WINDOW {
        len
    } else {
        FIRST_WINDOW
    }
}

/// How many bytes of the end of a log of `len` bytes to read after `size`
/// bytes were not enough. The window grows as long as it is not the whole
/// log.
pub fn next_window(size: u64, len: u64) -> (next: u64)
    ensures
        next == grown(size as nat, len as nat),
        next <= len,
        size < len ==> size < next,
{
    let wanted: u64 = if size < FIRST_WINDOW / 2 {
        FIRST_WINDOW
    } else if size > u64::MAX / 2 {
        u64::MAX
    } else {
        2 * size
    };
    if wanted < len {
        wanted
    } else {
        len
    }
}

/// Reads the last `n` entries out of `window`, the bytes of a log from its
/// byte `base` on: the entries, the oldest first; or the line that holds
/// none; or the word that the window begins too late for `n` lines. With
/// `base` zero, and so the whole log in hand, it never asks for more.
pub fn tail_window(window: &[u8], base: u64, n: usize) -> (r: TailStep)
    requires
        base + window.len() <= u64::MAX,
    ensures
        r@ == scan(window@, base as nat, n as nat),
        base == 0 ==> r !is NeedMore,
{
    let mut found: Vec<Entry> = Vec::new();
    let mut pos: usize = window.len();
    assert(window@.take(pos as int) =~= window@);
    loop
        invariant
            pos <= window.len(),
            found.len() <= n,
            base + window.len() <= u64::MAX,
            scan(window@, base as nat, n as nat) == with_newer(
                scan(window@.take(pos as int), base as nat, (n - found.len()) as nat),
                found.deep_view().reverse(),
            ),
        decreases pos, n - found.len(),
    {
        let ghost rest = window@.take(pos as int);
        let ghost newer = found.deep_view().reverse();
        if found.len() == n {
            let entries = oldest_first(found);
            return TailStep::Done(entries);
        }
        if pos == 0 {
            if base == 0 {
                let entries = oldest_first(found);
                return TailStep::Done(entries);
            } else {
                return TailStep::NeedMore;
            }
        }
        let end: usize = if window[pos - 1] == LINE_END {
            pos - 1
        } else {
            pos
        };
        let start = find_line_start(window, end);
        proof {
            lemma_line_start_of_prefix(window@, pos as int, end as int);
            assert(rest.subrange(start as int, end as int) =~= window@.subrange(
                start as int,
                end as int,
            ));
            assert(rest.take(start as int) =~= window@.take(start as int));
        }
        if start == 0 && base > 0 {
            return TailStep::NeedMore;
        }
        let line = slice_subrange(window, start, end);
        match decode_line(line) {
            None => {
                return TailStep::Failed(PartialDecodeError { offset: base + start as u64 });
            },
            Some(e) => {
                proof {
                    let older = scan(
                        window@.take(start as int),
                        base as nat,
                        (n - found.len() - 1) as nat,
                    );
                    let f = found.deep_view();
                    assert(f.push(e@).reverse() =~= seq![e@] + f.reverse());
                    match older {
                        TailView::Done(entries) => {
                            assert(entries.push(e@) + newer =~= entries + (seq![e@] + newer));
                        },
                        _ => {},
                    }
                }
                let ghost f = found.deep_view();
                found.push(e);
                assert(found.deep_view() =~= f.push(e@));
                pos = start;
            },
        }
    }
}

/// Reads the last `n` entries of `log` as a file would be read: its end
/// first, and a longer end as long as the lines asked for begin further up.
/// Gives what was read, and how many bytes of the end of the log were
/// looked at for it.
pub fn read_tail(log: &[u8], n: usize) -> (r: (TailStep, u64))
    ensures
        r.0@ == tail_of(log@, n as nat),
        r.0 !is NeedMore,
        r.1 == reach(log@, n as nat, grown(0, log@.len())),
        r.1 <= log@.len(),
{
    let len: u64 = log.len() as u64;
    let mut size: u64 = first_window(len);
    loop
        invariant
            len == log.len(),
            size <= len,
            reach(log@, n as nat, grown(0, log@.len())) == reach(log@, n as nat, size as nat),
        decreases len - size,
    {
        let base: u64 = len - size;
        let window = slice_subrange(log, base as usize, log.len());
        let step = tail_window(window, base, n);
        proof {
            if step@ !is NeedMore {
                law_window_suffices(log@, base as nat, n as nat);
            }
        }
        match step {
            TailStep::NeedMore => {
                size = next_window(size, len);
            },
            done => {
                return (done, size);
            },
        }
    }
}

/// The last `n` entries of `log`, the oldest first, and all of them where
/// the log holds fewer. An empty log has none. A line among those read that
/// holds no entry fails the reading, with the place of the line; where more
/// than one does, the place is that of the last of them. What is looked at
/// of a long log is its end only.
pub fn get_last_n_entries(log: &[u8], n: usize) -> (r: Result<Vec<Entry>, PartialDecodeError>)
    ensures
        match r {
            Ok(entries) => tail_of(log@, n as nat) == TailView::Done(entries.deep_view()),
            Err(e) => tail_of(log@, n as nat) == TailView::Failed(e.offset as nat),
        },
{
    match read_tail(log, n).0 {
        TailStep::Done(entries) => Ok(entries),
        TailStep::Failed(e) => Err(e),
        TailStep::NeedMore => Ok(Vec::new()),
    }
}

} // verus!
