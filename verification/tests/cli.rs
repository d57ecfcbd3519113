use logbook::{
    list_last_entries, make_entry, requested_count, write_entry, Cli, Entry, PartialDecodeError,
    TailStep, Timestamp,
};

fn cli(number: Option<i32>, tags: bool) -> Cli {
    Cli { all: false, entry: vec![], number, tags }
}

fn entry(i: u32) -> Entry {
    make_entry(&format!("entry {}", i), Timestamp::new(2023, 1, 1, 0, i % 60, 0, 0).unwrap())
}

fn log_of(count: u32) -> Vec<u8> {
    let mut log = Vec::new();
    for i in 0..count {
        write_entry(&entry(i), &mut log);
    }
    log
}

#[test]
fn ten_entries_where_no_number_is_given() {
    assert_eq!(requested_count(&cli(None, false)), 10);
}

#[test]
fn the_number_given_is_the_number_asked_for() {
    assert_eq!(requested_count(&cli(Some(0), false)), 0);
    assert_eq!(requested_count(&cli(Some(1), false)), 1);
    assert_eq!(requested_count(&cli(Some(25), true)), 25);
    assert_eq!(requested_count(&cli(Some(i32::MAX), false)), i32::MAX as usize);
}

#[test]
fn a_number_below_zero_counts_down_from_the_top() {
    assert_eq!(requested_count(&cli(Some(-1), false)), usize::MAX);
    assert_eq!(requested_count(&cli(Some(-2), false)), usize::MAX - 1);
    assert_eq!(requested_count(&cli(Some(i32::MIN), false)), i32::MIN as usize);
}

#[test]
fn a_listing_shows_the_last_ten() {
    let log = log_of(12);
    let expected: Vec<Entry> = (2..12).map(entry).collect();
    assert_eq!(list_last_entries(&cli(None, false), &log, 0), TailStep::Done(expected));
}

#[test]
fn a_listing_shows_as_many_as_the_number_says() {
    let log = log_of(12);
    assert_eq!(
        list_last_entries(&cli(Some(2), true), &log, 0),
        TailStep::Done(vec![entry(10), entry(11)])
    );
    assert_eq!(list_last_entries(&cli(Some(0), true), &log, 0), TailStep::Done(vec![]));
    let all: Vec<Entry> = (0..12).map(entry).collect();
    assert_eq!(list_last_entries(&cli(Some(-1), true), &log, 0), TailStep::Done(all));
}

#[test]
fn a_listing_of_an_empty_log_is_empty() {
    assert_eq!(list_last_entries(&cli(None, false), &[], 0), TailStep::Done(vec![]));
}

#[test]
fn a_listing_from_too_short_a_window_asks_for_more() {
    let log = log_of(12);
    let base = log.len() - 20;
    assert_eq!(list_last_entries(&cli(Some(2), false), &log[base..], base as u64), TailStep::NeedMore);
}

#[test]
fn a_listing_fails_on_a_line_that_holds_no_entry() {
    let mut log = log_of(2);
    let offset = log.len() as u64;
    log.extend_from_slice(b"{\"date\":\"2023-01-01T00:0");
    assert_eq!(
        list_last_entries(&cli(None, false), &log, 0),
        TailStep::Failed(PartialDecodeError { offset })
    );
}
