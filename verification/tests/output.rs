use logbook::{entry_rows, heading_text, make_entry, print_entries, Cli, Entry, Shown, Timestamp};

fn cli(number: Option<i32>, tags: bool) -> Cli {
    Cli { all: false, entry: vec![], number, tags }
}

fn at_half_past_nine(text: &str) -> Entry {
    make_entry(text, Timestamp::new(2023, 4, 1, 9, 30, 0, 0).unwrap())
}

#[test]
fn heading_without_tags() {
    assert_eq!(
        heading_text(&cli(None, false)),
        "\x1b[1m\x1b[4mDateTime\x1b[0m                 \x1b[1m\x1b[4mText\x1b[0m"
    );
}

#[test]
fn heading_with_tags() {
    assert_eq!(
        heading_text(&cli(None, true)),
        "\x1b[1m\x1b[4mDateTime\x1b[0m                 \x1b[1m\x1b[4mText\x1b[0m                                                    \x1b[1m\x1b[4mTags\x1b[0m"
    );
}

#[test]
fn heading_has_its_labels_where_they_belong() {
    let plain = heading_text(&cli(Some(3), false));
    let with_tags = heading_text(&cli(Some(3), true));
    assert!(with_tags.starts_with(&plain));
    assert_eq!(plain.len(), 3 * 4 + 8 + 17 + 3 * 4 + 4);
    assert_eq!(with_tags.len(), plain.len() + 52 + 3 * 4 + 4);
}

fn lines(texts: &[&str]) -> Vec<String> {
    texts.iter().map(|t| t.to_string()).collect()
}

#[test]
fn rows_of_an_entry_with_its_tags() {
    let e = at_half_past_nine("buy milk #errand #today");
    let rows = entry_rows(
        &cli(None, true),
        &e,
        "Sat Apr-01  9:30 AM",
        "buy milk #errand",
        &lines(&["\t\t\tbuy milk #errand\t", "\t\t\t#today\t"]),
    );
    assert_eq!(
        rows,
        vec![
            "".to_string(),
            "\x1b[1mSat Apr-01  9:30 AM\x1b[0m\t  buy milk #errand #errand #today".to_string(),
            "\t\t\t#today\t".to_string(),
        ]
    );
}

#[test]
fn rows_of_an_entry_without_the_tags_column() {
    let e = at_half_past_nine("buy milk #errand #today");
    let rows = entry_rows(
        &cli(None, false),
        &e,
        "Sat Apr-01  9:30 AM",
        "buy milk",
        &lines(&["one", "two", "three"]),
    );
    assert_eq!(
        rows,
        vec![
            "".to_string(),
            "\x1b[1mSat Apr-01  9:30 AM\x1b[0m\t  buy milk".to_string(),
            "two".to_string(),
            "three".to_string(),
        ]
    );
}

#[test]
fn the_tags_column_of_an_entry_without_tags_is_a_space() {
    let e = at_half_past_nine("plain");
    let rows = entry_rows(&cli(None, true), &e, "now", "plain", &lines(&["plain"]));
    assert_eq!(rows, vec!["".to_string(), "\x1b[1mnow\x1b[0m\t  plain ".to_string()]);
}

#[test]
fn the_tags_column_of_an_entry_with_one_tag() {
    let e = at_half_past_nine("#one");
    let rows = entry_rows(&cli(None, true), &e, "now", "#one", &lines(&["#one"]));
    assert_eq!(rows, vec!["".to_string(), "\x1b[1mnow\x1b[0m\t  #one #one".to_string()]);
}

#[test]
fn an_entry_without_lines_has_no_rows() {
    let e = at_half_past_nine("text #tag");
    assert_eq!(entry_rows(&cli(None, true), &e, "now", "lead", &vec![]), Vec::<String>::new());
}

#[test]
fn rows_are_put_together_as_the_format_of_std_does() {
    let e = at_half_past_nine("a #b c #d");
    let rows = entry_rows(&cli(None, true), &e, "date", "lead", &lines(&["first", "second"]));
    let expected = format!(
        "{}{}{}{}{}",
        "\x1b[1m",
        "date",
        "\x1b[0m",
        "\t  ".to_owned() + "lead",
        format!(" {}", e.tags().join(" "))
    );
    assert_eq!(rows[1], expected);
}

fn shown(text: &str, date: &str, laid_out: &[&str]) -> Shown {
    Shown { entry: at_half_past_nine(text), date: date.to_string(), lines: lines(laid_out) }
}

#[test]
fn a_listing_is_the_heading_and_the_rows_of_each_entry() {
    let entries = vec![
        shown("first #a", "Mon", &["\t\t\tfirst #a\t"]),
        shown("second is longer #b #c", "Tue", &["\t\t\tsecond is   \t", "\t\t\tlonger #b #c\t"]),
        shown("no lines", "Wed", &[]),
        shown("last", "Thu", &["  last"]),
        shown("", "Fri", &["\t\t\t \t"]),
    ];
    let mut rows = vec!["kept".to_string()];
    print_entries(&entries, &cli(None, true), &mut rows);
    assert_eq!(
        rows,
        vec![
            "kept".to_string(),
            heading_text(&cli(None, true)),
            "".to_string(),
            "\x1b[1mMon\x1b[0m\t  first #a\t #a".to_string(),
            "".to_string(),
            "\x1b[1mTue\x1b[0m\t  second is   \t #b #c".to_string(),
            "\t\t\tlonger #b #c\t".to_string(),
            "".to_string(),
            "\x1b[1mThu\x1b[0m\t  last ".to_string(),
            "".to_string(),
            format!("\x1b[1mFri\x1b[0m\t  {} ", textwrap::dedent("\t\t\t \t")),
        ]
    );
}

#[test]
fn a_listing_of_no_entries_is_the_heading() {
    let mut rows = Vec::new();
    print_entries(&vec![], &cli(None, false), &mut rows);
    assert_eq!(rows, vec![heading_text(&cli(None, false))]);
}

#[test]
fn a_listing_is_the_rows_of_its_entries_in_turn() {
    let entries = vec![
        shown("one #x", "d1", &["    one", "    #x"]),
        shown("two", "d2", &["\ttwo"]),
        shown("three", "d3", &[]),
    ];
    for tags in [false, true] {
        let mut expected = vec![heading_text(&cli(None, tags))];
        for s in &entries {
            let lead = s.lines.first().map(|l| textwrap::dedent(l)).unwrap_or_default();
            expected.extend(entry_rows(&cli(None, tags), &s.entry, &s.date, &lead, &s.lines));
        }
        let mut rows = Vec::new();
        print_entries(&entries, &cli(None, tags), &mut rows);
        assert_eq!(rows, expected);
    }
}

#[test]
fn the_first_line_of_an_entry_loses_its_indentation() {
    let entries = vec![shown("deep", "d", &["\t\t\tdeep\t", "\t\t\tdeeper\t"])];
    let mut rows = Vec::new();
    print_entries(&entries, &cli(None, false), &mut rows);
    assert_eq!(rows[2], "\x1b[1md\x1b[0m\t  deep\t");
    assert_eq!(rows[3], "\t\t\tdeeper\t");
}
