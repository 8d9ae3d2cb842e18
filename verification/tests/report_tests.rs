use teatime::dates::Date;
use teatime::duration::Duration;
use teatime::entry::Entry;
use teatime::reports::{render_report, report, with_default_to, GroupBy, ReportQuery};
use teatime::tag::{Tag, Tags};

fn entry(y: u64, m: u64, d: u64, minutes: i64, note: &str) -> Entry {
    Entry::new(
        Date::from_ymd(y, m, d).unwrap(),
        Duration::minutes(minutes),
        note.to_string(),
    )
}

fn query(
    from: Option<(u64, u64, u64)>,
    to: Option<(u64, u64, u64)>,
    tags: Vec<&str>,
    group_by: Option<GroupBy>,
) -> ReportQuery {
    ReportQuery {
        from: from.map(|(y, m, d)| Date::from_ymd(y, m, d).unwrap()),
        to: to.map(|(y, m, d)| Date::from_ymd(y, m, d).unwrap()),
        tags: Tags::from_vec(
            tags.into_iter()
                .map(|t| Tag::new_label(t.to_string()))
                .collect(),
        ),
        group_by,
    }
}

#[test]
fn report_filters_by_range_and_tags() {
    let entries = vec![
        entry(2023, 8, 1, 120, "A @x"),
        entry(2023, 8, 2, 90, "B @y"),
        entry(2023, 8, 8, 180, "C @x"),
    ];
    let q = query(
        Some((2023, 8, 1)),
        Some((2023, 8, 7)),
        vec!["x"],
        None,
    );
    let r = report(&entries, &q);
    assert_eq!(r.entries.len(), 1);
    assert_eq!(r.entries[0].note().as_str(), "A @x");
    assert_eq!(r.entries[0].date(), Date::from_ymd(2023, 8, 1).unwrap());
    assert_eq!(r.entries[0].duration(), Duration::minutes(120));
    assert_eq!(r.total.format(), "2h00");
    assert!(r.date_groups.is_empty());
    assert!(r.label_groups.is_empty());
}

#[test]
fn report_bounds_are_inclusive() {
    let entries = vec![
        entry(2023, 8, 1, 10, "start"),
        entry(2023, 8, 4, 20, "middle"),
        entry(2023, 8, 7, 30, "end"),
        entry(2023, 8, 8, 40, "past"),
    ];
    let q = query(Some((2023, 8, 1)), Some((2023, 8, 7)), vec![], None);
    let r = report(&entries, &q);
    assert_eq!(r.entries.len(), 3);
    assert_eq!(r.total, Duration::minutes(60));
}

#[test]
fn report_sorts_by_date_keeping_log_order_within_a_day() {
    let entries = vec![
        entry(2023, 8, 3, 10, "third"),
        entry(2023, 8, 1, 20, "first a"),
        entry(2023, 8, 1, 30, "first b"),
        entry(2023, 8, 2, 40, "second"),
    ];
    let q = query(None, Some((2023, 12, 31)), vec![], None);
    let r = report(&entries, &q);
    let notes: Vec<&str> = r.entries.iter().map(|e| e.note().as_str()).collect();
    assert_eq!(notes, vec!["first a", "first b", "second", "third"]);
    assert_eq!(r.total, Duration::minutes(100));
}

#[test]
fn report_groups_by_day() {
    let entries = vec![
        entry(2023, 8, 1, 30, "a"),
        entry(2023, 8, 1, 30, "b"),
        entry(2023, 8, 2, 60, "c"),
    ];
    let q = query(None, Some((2023, 12, 31)), vec![], Some(GroupBy::Day));
    let r = report(&entries, &q);
    assert_eq!(r.date_groups.len(), 2);
    assert_eq!(r.date_groups[0].0, Date::from_ymd(2023, 8, 1).unwrap());
    assert_eq!(r.date_groups[0].1, Duration::minutes(60));
    assert_eq!(r.date_groups[1].0, Date::from_ymd(2023, 8, 2).unwrap());
    assert_eq!(r.date_groups[1].1, Duration::minutes(60));
    assert_eq!(r.total, Duration::minutes(120));
}

#[test]
fn report_groups_a_whole_week_into_one_bucket() {
    // Monday 2023-08-07 through Sunday 2023-08-13
    let entries = vec![
        entry(2023, 8, 7, 10, "mon"),
        entry(2023, 8, 9, 20, "wed"),
        entry(2023, 8, 11, 30, "fri"),
        entry(2023, 8, 13, 40, "sun"),
    ];
    let q = query(None, Some((2023, 12, 31)), vec![], Some(GroupBy::Week));
    let r = report(&entries, &q);
    assert_eq!(r.date_groups.len(), 1);
    assert_eq!(r.date_groups[0].0, Date::from_ymd(2023, 8, 7).unwrap());
    assert_eq!(r.date_groups[0].1, Duration::minutes(100));
    assert_eq!(r.total, Duration::minutes(100));
}

#[test]
fn report_groups_by_month_across_a_year_boundary() {
    let entries = vec![
        entry(2023, 12, 30, 15, "a"),
        entry(2023, 12, 31, 15, "b"),
        entry(2024, 1, 1, 45, "c"),
    ];
    let q = query(None, Some((2024, 12, 31)), vec![], Some(GroupBy::Month));
    let r = report(&entries, &q);
    assert_eq!(r.date_groups.len(), 2);
    assert_eq!(r.date_groups[0].0, Date::from_ymd(2023, 12, 1).unwrap());
    assert_eq!(r.date_groups[0].1, Duration::minutes(30));
    assert_eq!(r.date_groups[1].0, Date::from_ymd(2024, 1, 1).unwrap());
    assert_eq!(r.date_groups[1].1, Duration::minutes(45));
    // grouping conserves the grand total
    assert_eq!(r.total, Duration::minutes(75));
}

#[test]
fn report_label_grouping_fans_out_multi_tag_entries() {
    let entries = vec![
        entry(2023, 8, 1, 60, "X @a @b"),
        entry(2023, 8, 2, 30, "Y @a"),
        entry(2023, 8, 3, 5, "no tags"),
    ];
    let q = query(None, Some((2023, 12, 31)), vec![], Some(GroupBy::Label));
    let r = report(&entries, &q);
    assert_eq!(r.label_groups.len(), 2);
    assert_eq!(r.label_groups[0].0, Tag::new_label("a".to_string()));
    assert_eq!(r.label_groups[0].1, Duration::minutes(90));
    assert_eq!(r.label_groups[1].0, Tag::new_label("b".to_string()));
    assert_eq!(r.label_groups[1].1, Duration::minutes(60));
    // subtotals exceed the grand total by the multi-tag entry's
    // duration, less the untagged entry's
    assert_eq!(r.total, Duration::minutes(95));
}

#[test]
fn report_label_grouping_counts_a_repeated_tag_once() {
    let entries = vec![entry(2023, 8, 1, 60, "X @a then @a again")];
    let q = query(None, Some((2023, 12, 31)), vec![], Some(GroupBy::Label));
    let r = report(&entries, &q);
    assert_eq!(r.label_groups.len(), 1);
    assert_eq!(r.label_groups[0].1, Duration::minutes(60));
}

#[test]
fn render_lists_entries_then_total() {
    let entries = vec![
        entry(2023, 8, 1, 120, "A @x"),
        entry(2023, 8, 2, 90, "B @y"),
    ];
    let q = query(None, Some((2023, 12, 31)), vec![], None);
    let r = report(&entries, &q);
    let lines = render_report(&r);
    assert_eq!(
        lines,
        vec![
            "2023-08-01 2h00 A @x".to_string(),
            "2023-08-02 1h30 B @y".to_string(),
            "Total duration: 3h30".to_string(),
        ]
    );
}

#[test]
fn render_grouped_report_lists_buckets() {
    let entries = vec![
        entry(2023, 8, 1, 30, "a"),
        entry(2023, 8, 1, 30, "b"),
        entry(2023, 8, 2, 60, "c"),
    ];
    let q = query(None, Some((2023, 12, 31)), vec![], Some(GroupBy::Day));
    let r = report(&entries, &q);
    let lines = render_report(&r);
    assert_eq!(lines.len(), 3 + 2 + 1);
    assert_eq!(lines[3], "2023-08-01 1h00");
    assert_eq!(lines[4], "2023-08-02 1h00");
    assert_eq!(lines[5], "Total duration: 2h00");
}

#[test]
fn default_upper_bound_is_today() {
    // the clock stands well between the year 2023 and the year 9999,
    // so the filled-in bound admits a past entry and rejects a far one
    let q = with_default_to(query(None, None, vec![], None));
    let to = q.to.expect("today should fall in the supported span");
    assert!(Date::from_ymd(2023, 1, 1).unwrap().le(&to));
    assert!(to.le(&Date::from_ymd(9999, 12, 31).unwrap()));
    let entries = vec![
        entry(2023, 8, 1, 30, "past work"),
        entry(9999, 12, 31, 60, "far future"),
    ];
    let r = report(&entries, &q);
    assert_eq!(r.entries.len(), 1);
    assert_eq!(r.entries[0].note().as_str(), "past work");
    assert_eq!(r.total, Duration::minutes(30));
    // a given bound is left alone
    let fixed = with_default_to(query(None, Some((2023, 8, 7)), vec![], None));
    assert_eq!(fixed.to, Some(Date::from_ymd(2023, 8, 7).unwrap()));
}
