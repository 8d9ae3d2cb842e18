use teatime::dates::Date;
use teatime::duration::{parse_duration, Duration, ParseDurationError};
use teatime::entry::{Entry, ParseEntryError};
use teatime::reports::{GroupBy, ParseGroupByError};
use teatime::tag::{parse_tags, Tag, Tags};

#[test]
fn test_group_by_from_str() {
    assert_eq!(GroupBy::from_str("day"), Ok(GroupBy::Day));
    assert_eq!(GroupBy::from_str("week"), Ok(GroupBy::Week));
    assert_eq!(GroupBy::from_str("month"), Ok(GroupBy::Month));
    assert_eq!(GroupBy::from_str("label"), Ok(GroupBy::Label));
    assert_eq!(
        GroupBy::from_str("_"),
        Err(ParseGroupByError::UnknownGroupByKeyword)
    );
}

#[test]
fn group_by_ignores_ascii_case() {
    assert_eq!(GroupBy::from_str("Day"), Ok(GroupBy::Day));
    assert_eq!(GroupBy::from_str("WEEK"), Ok(GroupBy::Week));
    assert_eq!(GroupBy::from_str("Month"), Ok(GroupBy::Month));
    assert_eq!(GroupBy::from_str("LaBeL"), Ok(GroupBy::Label));
    assert_eq!(
        GroupBy::from_str("daily"),
        Err(ParseGroupByError::UnknownGroupByKeyword)
    );
}

#[test]
fn duration_format_sixty_five() {
    assert_eq!(Duration::minutes(65).format(), "1h05");
}

#[test]
fn duration_parse_sixty_five() {
    assert_eq!(Duration::parse("1h05"), Ok(Duration::minutes(65)));
}

#[test]
fn duration_round_trip_small_counts() {
    for n in [0i64, 1, 59, 60, 61, 119, 120, 185, 1440, 99999] {
        let d = Duration::minutes(n);
        let text = d.format();
        assert_eq!(Duration::parse(&text), Ok(d));
    }
}

#[test]
fn duration_format_zero() {
    assert_eq!(Duration::zero().format(), "0h00");
    assert_eq!(Duration::default(), Duration::zero());
}

#[test]
fn duration_add_sums_minutes() {
    let a = Duration::minutes(90);
    let b = Duration::minutes(45);
    assert_eq!(a.add(b), Duration::minutes(135));
    assert_eq!(a.add(Duration::zero()), a);
    assert_eq!(a.add(b), b.add(a));
}

#[test]
fn duration_parse_rejects_malformed_text() {
    for bad in ["", "xyz", "h5", "5h", "5", "1h 5", "-1h05", "1h-5", "5m30", "one h two"] {
        assert_eq!(
            Duration::parse(bad),
            Err(ParseDurationError::MalformedDuration),
            "input: {bad:?}"
        );
    }
}

#[test]
fn duration_parse_keeps_lenient_minutes() {
    // minutes are deliberately not range-checked against 0..=59
    assert_eq!(Duration::parse("1h70"), Ok(Duration::minutes(130)));
    assert_eq!(parse_duration("0h90"), Ok(Duration::minutes(90)));
}

#[test]
fn date_validity_follows_the_calendar() {
    assert!(Date::from_ymd(2023, 2, 28).is_some());
    assert!(Date::from_ymd(2023, 2, 29).is_none());
    assert!(Date::from_ymd(2024, 2, 29).is_some());
    assert!(Date::from_ymd(1900, 2, 29).is_none());
    assert!(Date::from_ymd(2000, 2, 29).is_some());
    assert!(Date::from_ymd(2023, 13, 1).is_none());
    assert!(Date::from_ymd(2023, 4, 31).is_none());
    assert!(Date::from_ymd(2023, 0, 1).is_none());
    assert!(Date::from_ymd(0, 1, 1).is_none());
    assert!(Date::from_ymd(10000, 1, 1).is_none());
}

#[test]
fn date_week_anchor_is_monday() {
    // 2023-08-07 was a Monday
    let monday = Date::from_ymd(2023, 8, 7).unwrap();
    assert_eq!(monday.weekday(), 0);
    let wednesday = Date::from_ymd(2023, 8, 9).unwrap();
    assert_eq!(wednesday.weekday(), 2);
    assert_eq!(wednesday.week_start(), monday);
    let sunday = Date::from_ymd(2023, 8, 13).unwrap();
    assert_eq!(sunday.week_start(), monday);
    // a week crossing a month boundary
    let sep_first = Date::from_ymd(2023, 9, 1).unwrap();
    assert_eq!(sep_first.week_start(), Date::from_ymd(2023, 8, 28).unwrap());
}

#[test]
fn date_format_pads_components() {
    let d = Date::from_ymd(987, 6, 5).unwrap();
    assert_eq!(d.format(), "0987-06-05");
}

#[test]
fn tag_find_extracts_labels_in_order() {
    let tags = Tag::find("Doing something on project @teatime for @fun");
    let expected = Tags::from_vec(vec![
        Tag::new_label("teatime".to_string()),
        Tag::new_label("fun".to_string()),
    ]);
    assert_eq!(tags, expected);
}

#[test]
fn tag_find_is_idempotent() {
    let text = "work on @a then @b(value) then @a again";
    let first = Tag::find(text);
    let second = Tag::find(text);
    assert_eq!(first, second);
    let expected = Tags::from_vec(vec![
        Tag::new_label("a".to_string()),
        Tag::new_label("b".to_string()),
        Tag::new_label("a".to_string()),
    ]);
    assert_eq!(first, expected);
}

#[test]
fn tag_find_handles_marker_edge_cases() {
    assert_eq!(
        Tag::find("@@foo"),
        Tags::from_vec(vec![Tag::new_label("foo".to_string())])
    );
    // an unclosed value keeps only the label
    assert_eq!(
        Tag::find("@a(b"),
        Tags::from_vec(vec![Tag::new_label("a".to_string())])
    );
    // an empty value pair is consumed
    assert_eq!(
        Tag::find("x@b()y@c"),
        Tags::from_vec(vec![
            Tag::new_label("b".to_string()),
            Tag::new_label("c".to_string()),
        ])
    );
    assert_eq!(Tag::find("no markers here"), Tags::from_vec(vec![]));
}

#[test]
fn tags_set_queries() {
    let mut held = Tags::from_vec(vec![
        Tag::new_label("project".to_string()),
        Tag::new_label("urgent".to_string()),
    ]);
    held.push(Tag::new_label("later".to_string()));
    assert_eq!(held.len(), 3);
    assert_eq!(held.iter().len(), 3);
    assert!(held.contains(&Tag::new_label("urgent".to_string())));
    assert!(!held.contains(&Tag::new_label("urge".to_string())));

    let wanted = Tags::from_vec(vec![
        Tag::new_label("project".to_string()),
        Tag::new_label("later".to_string()),
    ]);
    assert!(held.contains_all(&wanted));
    assert!(held.contains_any(&wanted));

    let other = Tags::from_vec(vec![
        Tag::new_label("project".to_string()),
        Tag::new_label("missing".to_string()),
    ]);
    assert!(!held.contains_all(&other));
    assert!(held.contains_any(&other));

    let none = Tags::from_vec(vec![Tag::new_label("missing".to_string())]);
    assert!(!held.contains_any(&none));
    // an empty filter restricts nothing
    assert!(held.contains_all(&Tags::from_vec(vec![])));
}

#[test]
fn parse_tags_splits_on_commas() {
    let tags = parse_tags("project,urgent").unwrap();
    let expected = Tags::from_vec(vec![
        Tag::new_label("project".to_string()),
        Tag::new_label("urgent".to_string()),
    ]);
    assert_eq!(tags, expected);
    // a lone segment, even empty, is kept verbatim
    let single = parse_tags("").unwrap();
    assert_eq!(single, Tags::from_vec(vec![Tag::new_label(String::new())]));
    assert_eq!(
        parse_tags("a,").unwrap(),
        Tags::from_vec(vec![
            Tag::new_label("a".to_string()),
            Tag::new_label(String::new()),
        ])
    );
}

#[test]
fn entry_decode_reads_the_line_grammar() {
    let e = Entry::decode("2023-08-04 3h30 Doing something on project @teatime").unwrap();
    assert_eq!(e.date(), Date::from_ymd(2023, 8, 4).unwrap());
    assert_eq!(e.duration(), Duration::minutes(210));
    assert_eq!(e.note().as_str(), "Doing something on project @teatime");
    assert_eq!(
        e.tags(),
        &Tags::from_vec(vec![Tag::new_label("teatime".to_string())])
    );
}

#[test]
fn entry_decode_accepts_runs_of_spaces_between_fields() {
    let e = Entry::decode("2023-08-04   0h45  note text").unwrap();
    assert_eq!(e.duration(), Duration::minutes(45));
    assert_eq!(e.note().as_str(), "note text");
}

#[test]
fn entry_round_trip_keeps_every_field() {
    let original = Entry::new(
        Date::from_ymd(2023, 8, 4).unwrap(),
        Duration::minutes(210),
        "Doing something on project @teatime".to_string(),
    );
    let line = original.encode();
    assert_eq!(line, "2023-08-04 3h30 Doing something on project @teatime");
    let back = Entry::decode(&line).unwrap();
    assert_eq!(back, original);
}

#[test]
fn entry_decode_rejects_malformed_lines() {
    // a misshapen date field is a malformed line, never a panic
    assert_eq!(
        Entry::decode("not-a-date 99 note"),
        Err(ParseEntryError::MalformedLine)
    );
    // a well-shaped date naming no real day
    assert_eq!(
        Entry::decode("2023-02-30 1h00 note"),
        Err(ParseEntryError::InvalidDate)
    );
    assert_eq!(
        Entry::decode("2023-13-01 1h00 note"),
        Err(ParseEntryError::InvalidDate)
    );
    // a bad duration field
    assert_eq!(
        Entry::decode("2023-08-01 99 note"),
        Err(ParseEntryError::MalformedDuration)
    );
    // fewer than three fields
    assert_eq!(
        Entry::decode("2023-08-01 1h00"),
        Err(ParseEntryError::MalformedLine)
    );
    assert_eq!(Entry::decode("2023-08-01"), Err(ParseEntryError::MalformedLine));
    assert_eq!(Entry::decode(""), Err(ParseEntryError::MalformedLine));
}
