use logbook::{extract_tags, is_whitespace, make_entry, parse_entry, Timestamp};

fn noon() -> Timestamp {
    Timestamp::new(2023, 4, 1, 12, 0, 0, 0).unwrap()
}

fn tags_of(text: &str) -> Vec<String> {
    make_entry(text, noon()).tags().clone()
}

#[test]
fn tags_are_the_marked_words_in_order() {
    assert_eq!(tags_of("buy milk #errand #today"), vec!["#errand", "#today"]);
}

#[test]
fn text_without_marks_has_no_tags() {
    assert_eq!(tags_of("no tags here"), Vec::<String>::new());
}

#[test]
fn a_mark_inside_a_word_does_not_split_it() {
    assert_eq!(tags_of("#a#b"), vec!["#a#b"]);
}

#[test]
fn a_mark_inside_an_unmarked_word_makes_no_tag() {
    assert_eq!(tags_of("a#b c#"), Vec::<String>::new());
}

#[test]
fn empty_text_has_no_tags() {
    let e = make_entry("", noon());
    assert_eq!(e.text(), "");
    assert!(e.tags().is_empty());
}

#[test]
fn white_space_alone_has_no_tags() {
    assert!(tags_of(" \t\n\r  ").is_empty());
}

#[test]
fn repeated_tags_are_kept() {
    assert_eq!(tags_of("#a b #a"), vec!["#a", "#a"]);
}

#[test]
fn a_lone_mark_is_a_tag() {
    assert_eq!(tags_of("# #"), vec!["#", "#"]);
}

#[test]
fn tags_are_cut_at_every_kind_of_white_space() {
    assert_eq!(
        tags_of("#a\t#b\n#c\r\n#d\u{a0}#e\u{2003}#f\u{3000}#g\u{85}#h\u{b}#i\u{c}#j"),
        vec!["#a", "#b", "#c", "#d", "#e", "#f", "#g", "#h", "#i", "#j"]
    );
}

#[test]
fn characters_that_are_no_white_space_stay_in_the_tag() {
    // U+200B (zero width space) and U+180E are not white space.
    assert_eq!(tags_of("#a\u{200b}b #c\u{180e}d"), vec!["#a\u{200b}b", "#c\u{180e}d"]);
}

#[test]
fn tags_of_text_with_other_scripts() {
    assert_eq!(tags_of("café #déjà-vu 日本語 #日本"), vec!["#déjà-vu", "#日本"]);
}

#[test]
fn the_text_is_kept_as_given() {
    let text = "  leading and trailing  #x  ";
    let e = make_entry(text, noon());
    assert_eq!(e.text(), text);
    assert_eq!(e.date(), noon());
    assert_eq!(e.tags(), &vec!["#x".to_string()]);
}

#[test]
fn extract_tags_agrees_with_the_split_of_std() {
    let texts = [
        "",
        " ",
        "#",
        "a #b c",
        "#a#b",
        "x\u{2028}#y\u{2029}#z",
        "#one\u{1680}two #three\u{202f}#four\u{205f}five",
        "tab\t#t newline\n#n",
    ];
    for text in texts {
        let expected: Vec<String> =
            text.split_whitespace().filter(|s| s.starts_with('#')).map(|s| s.to_string()).collect();
        assert_eq!(extract_tags(text), expected, "for {:?}", text);
    }
}

#[test]
fn white_space_is_what_std_calls_white_space() {
    let mut code: u32 = 0;
    while code <= 0x10ffff {
        if let Some(c) = char::from_u32(code) {
            assert_eq!(is_whitespace(c), c.is_whitespace(), "for U+{:04X}", code);
        }
        code += 1;
    }
}

#[test]
fn an_entry_made_now_has_the_text_and_its_tags() {
    let e = parse_entry("standup went well #work").unwrap();
    assert_eq!(e.text(), "standup went well #work");
    assert_eq!(e.tags(), &vec!["#work".to_string()]);
    let d = e.date();
    assert!(d.year() >= 2023);
    assert!(1 <= d.month() && d.month() <= 12);
    assert!(1 <= d.day() && d.day() <= 31);
    assert!(d.hour() <= 23 && d.minute() <= 59 && d.second() <= 60);
    assert!(d.nanos() <= 999_999_999);
}
