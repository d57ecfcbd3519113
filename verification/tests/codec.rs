use logbook::{
    decode, encode, entry_at, make_entry, ClockReading, Entry, MalformedRecord, Timestamp,
};

fn at(text: &str) -> Entry {
    make_entry(text, Timestamp::new(2023, 4, 1, 9, 30, 0, 0).unwrap())
}

#[test]
fn record_of_an_entry_with_tags() {
    assert_eq!(
        encode(&at("buy milk #errand #today")),
        "{\"date\":\"2023-04-01T09:30:00Z\",\"text\":\"buy milk #errand #today\",\"tags\":[\"#errand\",\"#today\"]}"
    );
}

#[test]
fn record_of_an_entry_without_tags() {
    assert_eq!(
        encode(&at("no tags here")),
        "{\"date\":\"2023-04-01T09:30:00Z\",\"text\":\"no tags here\",\"tags\":[]}"
    );
}

#[test]
fn record_of_an_entry_with_one_tag() {
    assert_eq!(
        encode(&at("#solo")),
        "{\"date\":\"2023-04-01T09:30:00Z\",\"text\":\"#solo\",\"tags\":[\"#solo\"]}"
    );
}

#[test]
fn record_of_the_empty_text() {
    assert_eq!(encode(&at("")), "{\"date\":\"2023-04-01T09:30:00Z\",\"text\":\"\",\"tags\":[]}");
}

#[test]
fn record_with_a_fraction_of_a_second() {
    let e = make_entry("x", Timestamp::new(2024, 1, 2, 3, 4, 5, 678_000_000).unwrap());
    assert_eq!(encode(&e), "{\"date\":\"2024-01-02T03:04:05.678Z\",\"text\":\"x\",\"tags\":[]}");
}

#[test]
fn quotes_and_backslashes_are_escaped() {
    assert_eq!(
        encode(&at("say \"hi\" \\ bye")),
        "{\"date\":\"2023-04-01T09:30:00Z\",\"text\":\"say \\\"hi\\\" \\\\ bye\",\"tags\":[]}"
    );
}

#[test]
fn line_feeds_and_other_controls_are_escaped() {
    assert_eq!(
        encode(&at("a\nb\rc\td\u{8}e\u{c}f\u{0}g\u{1f}h\u{b}i")),
        "{\"date\":\"2023-04-01T09:30:00Z\",\"text\":\"a\\nb\\rc\\td\\be\\ff\\u0000g\\u001fh\\u000bi\",\"tags\":[]}"
    );
}

#[test]
fn other_characters_stand_as_they_are() {
    assert_eq!(
        encode(&at("caf\u{e9} \u{7f} \u{65e5}\u{672c} \u{1f600} / '")),
        "{\"date\":\"2023-04-01T09:30:00Z\",\"text\":\"caf\u{e9} \u{7f} \u{65e5}\u{672c} \u{1f600} / '\",\"tags\":[]}"
    );
}

#[test]
fn tags_are_escaped_like_the_text() {
    assert_eq!(
        encode(&at("#a\"b #c\\d")),
        "{\"date\":\"2023-04-01T09:30:00Z\",\"text\":\"#a\\\"b #c\\\\d\",\"tags\":[\"#a\\\"b\",\"#c\\\\d\"]}"
    );
}

#[test]
fn a_record_is_one_line() {
    let e = at("first line\nsecond line\r\nthird #tag\nfourth");
    let line = encode(&e);
    assert!(!line.contains('\n'));
    assert!(!line.contains('\r'));
    assert!(line.chars().all(|c| c as u32 >= 0x20));
}

fn round_trip_texts() -> Vec<String> {
    let mut texts: Vec<String> = vec![
        "".to_string(),
        " ".to_string(),
        "plain".to_string(),
        "buy milk #errand #today".to_string(),
        "#a#b".to_string(),
        "# ## ###".to_string(),
        "line one\nline two\n".to_string(),
        "\n\n\n".to_string(),
        "tab\there \r\n windows".to_string(),
        "quote \" and backslash \\ and slash /".to_string(),
        "\\n is not a line feed, \\\" is not a quote, \\u0041 is not A".to_string(),
        "ends with backslash \\".to_string(),
        "\"".to_string(),
        "\\".to_string(),
        "\\\\\"\"".to_string(),
        "caf\u{e9} na\u{ef}ve \u{65e5}\u{672c}\u{8a9e} #\u{65e5}\u{672c}".to_string(),
        "emoji \u{1f600} #\u{1f389}party".to_string(),
        "nbsp\u{a0}#x\u{2003}#y".to_string(),
        "\u{7f}\u{80}\u{9f}\u{2028}\u{2029}\u{feff}\u{fffd}\u{10ffff}".to_string(),
        "{\"date\":\"2023-04-01T09:30:00Z\",\"text\":\"nested\",\"tags\":[]}".to_string(),
        "\",\"tags\":[\"#fake\"]}".to_string(),
    ];
    let mut all_controls = String::new();
    let mut code: u32 = 0;
    while code < 0x30 {
        all_controls.push(char::from_u32(code).unwrap());
        code += 1;
    }
    texts.push(all_controls);
    texts
}

#[test]
fn decoding_a_record_gives_the_entry_back() {
    let dates = [
        Timestamp::new(2023, 4, 1, 9, 30, 0, 0).unwrap(),
        Timestamp::new(1999, 12, 31, 23, 59, 59, 999_999_999).unwrap(),
        Timestamp::new(-5, 1, 1, 0, 0, 0, 1_000).unwrap(),
        Timestamp::new(10000, 6, 30, 23, 59, 60, 5_000_000).unwrap(),
    ];
    for text in round_trip_texts() {
        for date in dates {
            let e = make_entry(&text, date);
            let line = encode(&e);
            assert_eq!(decode(&line), Ok(e), "for {:?}", text);
        }
    }
}

#[test]
fn decoding_gives_text_date_and_tags() {
    let e = decode(
        "{\"date\":\"2021-07-08T01:02:03.004Z\",\"text\":\"walk the dog #pets\",\"tags\":[\"#pets\"]}",
    )
    .unwrap();
    assert_eq!(e.text(), "walk the dog #pets");
    assert_eq!(e.date(), Timestamp::new(2021, 7, 8, 1, 2, 3, 4_000_000).unwrap());
    assert_eq!(e.tags(), &vec!["#pets".to_string()]);
}

#[test]
fn decoding_undoes_the_escapes() {
    let e = decode(
        "{\"date\":\"2021-07-08T01:02:03Z\",\"text\":\"a\\nb\\t\\\"c\\\"\\\\\\u0001\",\"tags\":[]}",
    )
    .unwrap();
    assert_eq!(e.text(), "a\nb\t\"c\"\\\u{1}");
}

#[test]
fn every_record_cut_short_is_refused() {
    for text in round_trip_texts() {
        let line = encode(&at(&text));
        let chars: Vec<char> = line.chars().collect();
        for cut in 0..chars.len() {
            let prefix: String = chars[..cut].iter().collect();
            assert_eq!(decode(&prefix), Err(MalformedRecord), "for {:?}", prefix);
        }
    }
}

#[test]
fn anything_behind_a_record_is_refused() {
    let line = encode(&at("done #x"));
    for extra in [" ", "\n", "}", ",", "x", "{}", "\u{0}"] {
        assert_eq!(decode(&format!("{}{}", line, extra)), Err(MalformedRecord));
    }
    assert_eq!(decode(&format!("{}{}", line, line)), Err(MalformedRecord));
}

#[test]
fn lines_that_encode_does_not_write_are_refused() {
    let bad = [
        "",
        " ",
        "{}",
        "null",
        "[]",
        "\"text\"",
        "{\"date\":\"2023-04-01T09:30:00Z\"}",
        "{\"date\":\"2023-04-01T09:30:00Z\",\"text\":\"x\"}",
        "{\"text\":\"x\",\"date\":\"2023-04-01T09:30:00Z\",\"tags\":[]}",
        "{\"date\":\"2023-04-01T09:30:00Z\",\"tags\":[],\"text\":\"x\"}",
        "{ \"date\":\"2023-04-01T09:30:00Z\",\"text\":\"x\",\"tags\":[]}",
        "{\"date\": \"2023-04-01T09:30:00Z\",\"text\":\"x\",\"tags\":[]}",
        "{\"date\":\"2023-04-01T09:30:00Z\", \"text\":\"x\",\"tags\":[]}",
        "{\"date\":\"2023-04-01T09:30:00Z\",\"text\":\"x\",\"tags\":[ ]}",
        "{\"date\":\"2023-04-01T09:30:00Z\",\"text\":\"x\",\"tags\":[]} ",
        "{\"Date\":\"2023-04-01T09:30:00Z\",\"text\":\"x\",\"tags\":[]}",
        "{\"date\":\"2023-04-01T09:30:00Z\",\"text\":\"x\",\"tags\":[],\"more\":1}",
        "{\"date\":\"2023-04-01T09:30:00Z\",\"text\":7,\"tags\":[]}",
        "{\"date\":\"2023-04-01T09:30:00Z\",\"text\":null,\"tags\":[]}",
        "{\"date\":\"2023-04-01T09:30:00Z\",\"text\":\"x\",\"tags\":null}",
        "{\"date\":\"2023-04-01T09:30:00Z\",\"text\":\"x\",\"tags\":\"\"}",
        "{\"date\":1680341400,\"text\":\"x\",\"tags\":[]}",
        "{\"date\":\"yesterday\",\"text\":\"x\",\"tags\":[]}",
        "{\"date\":\"2023-04-01T09:30:00\",\"text\":\"x\",\"tags\":[]}",
        "{\"date\":\"2023-04-01T09:30:00+02:00\",\"text\":\"x\",\"tags\":[]}",
        "{\"date\":\"2023-13-01T09:30:00Z\",\"text\":\"x\",\"tags\":[]}",
        "{\"date\":\"2023-02-30T09:30:00Z\",\"text\":\"x\",\"tags\":[]}",
        "{\"date\":\"2023-02-29T09:30:00Z\",\"text\":\"x\",\"tags\":[]}",
        "{\"date\":\"2023-06-31T09:30:00Z\",\"text\":\"x\",\"tags\":[]}",
        "{\"date\":\"2023-04-01T09:30:00.5Z\",\"text\":\"x\",\"tags\":[]}",
        "{\"date\":\"2023-04-01T09:30:00Z\",\"text\":\"x,\"tags\":[]}",
        "{\"date\":\"2023-04-01T09:30:00Z\",\"text\":\"x\\\",\"tags\":[]}",
    ];
    for line in bad {
        assert_eq!(decode(line), Err(MalformedRecord), "for {:?}", line);
    }
}

#[test]
fn tags_that_are_not_those_of_the_text_are_refused() {
    let bad = [
        "{\"date\":\"2023-04-01T09:30:00Z\",\"text\":\"a #b\",\"tags\":[]}",
        "{\"date\":\"2023-04-01T09:30:00Z\",\"text\":\"a b\",\"tags\":[\"#b\"]}",
        "{\"date\":\"2023-04-01T09:30:00Z\",\"text\":\"#a #b\",\"tags\":[\"#b\",\"#a\"]}",
        "{\"date\":\"2023-04-01T09:30:00Z\",\"text\":\"#a #b\",\"tags\":[\"#a\"]}",
        "{\"date\":\"2023-04-01T09:30:00Z\",\"text\":\"#a #a\",\"tags\":[\"#a\"]}",
        "{\"date\":\"2023-04-01T09:30:00Z\",\"text\":\"#a\",\"tags\":[\"#a\",\"#a\"]}",
        "{\"date\":\"2023-04-01T09:30:00Z\",\"text\":\"#a\",\"tags\":[\"a\"]}",
        "{\"date\":\"2023-04-01T09:30:00Z\",\"text\":\"#a #b\",\"tags\":[\"#a\", \"#b\"]}",
        "{\"date\":\"2023-04-01T09:30:00Z\",\"text\":\"#a #b\",\"tags\":[\"#a\",\"#b\",]}",
    ];
    for line in bad {
        assert_eq!(decode(line), Err(MalformedRecord), "for {:?}", line);
    }
}

#[test]
fn escapes_that_encode_does_not_write_are_refused() {
    let bodies = [
        "\\/",
        "\\u0041",
        "\\u00e9",
        "\\u001F",
        "\\u000A",
        "\\u000a",
        "\\u0009",
        "\\u0022",
        "\\u005c",
        "\\u00",
        "\\u12",
        "\\x41",
        "\\a",
        "\\N",
        "\\ ",
        "\\ud83d\\ude00",
        "raw\ttab",
        "raw\nfeed",
        "raw\u{0}zero",
        "raw\u{1f}unit",
    ];
    for body in bodies {
        let line =
            format!("{{\"date\":\"2023-04-01T09:30:00Z\",\"text\":\"{}\",\"tags\":[]}}", body);
        assert_eq!(decode(&line), Err(MalformedRecord), "for {:?}", line);
    }
}

#[test]
fn a_record_is_json_with_the_three_fields() {
    for text in round_trip_texts() {
        let e = at(&text);
        let line = encode(&e);
        let value: serde_json::Value = serde_json::from_str(&line).unwrap();
        let object = value.as_object().unwrap();
        assert_eq!(object.len(), 3);
        assert_eq!(object.get("date").unwrap().as_str().unwrap(), "2023-04-01T09:30:00Z");
        assert_eq!(object.get("text").unwrap().as_str().unwrap(), text);
        let tags: Vec<String> = object
            .get("tags")
            .unwrap()
            .as_array()
            .unwrap()
            .iter()
            .map(|t| t.as_str().unwrap().to_string())
            .collect();
        assert_eq!(&tags, e.tags());
    }
}

#[test]
fn a_record_is_put_together_as_serde_json_writes_its_parts() {
    for text in round_trip_texts() {
        let e = at(&text);
        let expected = format!(
            "{{\"date\":{},\"text\":{},\"tags\":{}}}",
            serde_json::to_string(&e.date().to_text()).unwrap(),
            serde_json::to_string(e.text()).unwrap(),
            serde_json::to_string(e.tags()).unwrap()
        );
        assert_eq!(encode(&e), expected);
    }
}

#[test]
fn a_copy_of_an_entry_is_the_entry() {
    let e = at("copy me #twice #twice");
    let copy = e.clone();
    assert_eq!(copy, e);
    assert_eq!(encode(&copy), encode(&e));
}

#[test]
fn every_character_comes_back_from_its_record() {
    let date = Timestamp::new(2023, 4, 1, 9, 30, 0, 0).unwrap();
    let mut text = String::new();
    let mut code: u32 = 0;
    while code <= 0x10ffff {
        if let Some(c) = char::from_u32(code) {
            text.push(c);
        }
        code += 1;
        if text.len() >= 8192 || code > 0x10ffff {
            let e = make_entry(&text, date);
            let line = encode(&e);
            assert!(line.chars().all(|c| c as u32 >= 0x20), "below U+{:04X}", code);
            let back = decode(&line).unwrap();
            assert_eq!(back.text(), text, "below U+{:04X}", code);
            assert_eq!(back, e);
            text.clear();
        }
    }
}

#[test]
fn every_character_alone_comes_back_from_its_record() {
    let date = Timestamp::new(2023, 4, 1, 9, 30, 0, 0).unwrap();
    let mut code: u32 = 0;
    while code < 0x3000 {
        if let Some(c) = char::from_u32(code) {
            for text in [c.to_string(), format!("#{}", c), format!("a{}#b", c)] {
                let e = make_entry(&text, date);
                assert_eq!(decode(&encode(&e)), Ok(e), "for U+{:04X}", code);
            }
        }
        code += 1;
    }
}

#[test]
fn an_entry_at_a_reading_has_its_time_and_text() {
    let reading = ClockReading {
        year: 2023,
        month: 4,
        day: 1,
        hour: 9,
        minute: 30,
        second: 0,
        nanosecond: 0,
    };
    assert_eq!(entry_at("buy milk #errand", Some(reading)), Some(at("buy milk #errand")));
    let leap = ClockReading { hour: 23, minute: 59, second: 59, nanosecond: 1_500_000_000, ..reading };
    assert_eq!(
        entry_at("x", Some(leap)),
        Some(make_entry("x", Timestamp::new(2023, 4, 1, 23, 59, 60, 500_000_000).unwrap()))
    );
}

#[test]
fn without_a_reading_there_is_no_entry() {
    let reading = ClockReading {
        year: 2023,
        month: 2,
        day: 28,
        hour: 9,
        minute: 30,
        second: 0,
        nanosecond: 0,
    };
    assert!(entry_at("x", Some(reading)).is_some());
    assert_eq!(entry_at("x", None), None);
    assert_eq!(entry_at("x", Some(ClockReading { day: 29, ..reading })), None);
    assert_eq!(entry_at("x", Some(ClockReading { month: 13, ..reading })), None);
    assert_eq!(entry_at("x", Some(ClockReading { second: 60, ..reading })), None);
    assert_eq!(entry_at("x", Some(ClockReading { nanosecond: 2_000_000_000, ..reading })), None);
}
