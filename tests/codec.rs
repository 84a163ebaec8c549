use rtd::date::{date_from_parts, CalDate};
use rtd::links::task_urls;
use rtd::task::{parse_task, Task, TaskError};

fn date(year: u16, month: u8, day: u8) -> CalDate {
    CalDate { year, month, day }
}

fn parsed(line: &str) -> Task {
    parse_task(line).unwrap().unwrap()
}

#[test]
fn decode_scenario_buy_milk() {
    let t = parsed("- [ ] &5 Buy milk %2024-01-01 @home");
    assert!(!t.is_done);
    assert_eq!(t.id, 5);
    assert_eq!(t.title, "Buy milk");
    assert_eq!(t.date, Some(date(2024, 1, 1)));
    assert_eq!(t.labels, vec!["@home".to_string()]);
}

#[test]
fn round_trip_of_encoded_task() {
    let t = Task {
        is_done: true,
        id: 42,
        title: "Write report %draft".to_string(),
        date: Some(date(2024, 2, 29)),
        labels: vec!["@work".to_string(), "@urgent".to_string()],
    };
    let line = t.to_line();
    assert_eq!(line, "- [x] &42 Write report %draft %2024-02-29 @work @urgent");
    assert_eq!(parsed(&line), t);
}

#[test]
fn round_trip_without_date_or_labels() {
    let t = Task {
        is_done: false,
        id: 0,
        title: "Plain".to_string(),
        date: None,
        labels: vec![],
    };
    assert_eq!(t.to_line(), "- [ ] &0 Plain");
    assert_eq!(parsed(&t.to_line()), t);
}

#[test]
fn date_is_zero_padded() {
    let t = Task {
        is_done: false,
        id: 7,
        title: "Old".to_string(),
        date: Some(date(987, 3, 4)),
        labels: vec![],
    };
    assert_eq!(t.to_line(), "- [ ] &7 Old %0987-03-04");
}

#[test]
fn non_task_lines_are_not_tasks() {
    assert_eq!(parse_task("# Heading"), Ok(None));
    assert_eq!(parse_task(""), Ok(None));
    assert_eq!(parse_task("* [ ] &1 star bullet"), Ok(None));
    assert_eq!(parse_task("- [X] &1 capital x"), Ok(None));
}

#[test]
fn marker_alone_is_a_task_without_id() {
    let empty = Task {
        is_done: false,
        id: -1,
        title: String::new(),
        date: None,
        labels: vec![],
    };
    assert_eq!(parse_task("- [ ]"), Ok(Some(empty.clone())));
    assert_eq!(parse_task("- [ ]    "), Ok(Some(empty)));
    let done = parsed("- [x]");
    assert!(done.is_done);
    assert_eq!(done.id, -1);
    assert_eq!(done.title, "");
    assert_eq!(done.to_line(), "- [x] &-1 ");
    assert_eq!(parsed(&done.to_line()), done);
}

#[test]
fn malformed_id_is_an_error() {
    assert_eq!(parse_task("- [ ] &abc Buy milk"), Err(TaskError::MalformedRecord));
    assert_eq!(parse_task("- [x] & Buy milk"), Err(TaskError::MalformedRecord));
    assert_eq!(parse_task("- [ ] &99999999999 too big"), Err(TaskError::MalformedRecord));
}

#[test]
fn signed_ids_parse() {
    assert_eq!(parsed("- [ ] &-1 no id yet").id, -1);
    assert_eq!(parsed("- [ ] &+12 plus sign").id, 12);
    assert_eq!(parsed("- [ ] &-2147483648 lowest").id, i32::MIN);
}

#[test]
fn missing_id_gives_minus_one() {
    let t = parsed("- [x] Call mum @family");
    assert!(t.is_done);
    assert_eq!(t.id, -1);
    assert_eq!(t.title, "Call mum");
    assert_eq!(t.labels, vec!["@family".to_string()]);
    assert_eq!(t.to_line(), "- [x] &-1 Call mum @family");
}

#[test]
fn first_date_wins_and_later_ones_join_the_title() {
    let t = parsed("- [ ] &3 a %2024-01-01 b %2024-05-05 c");
    assert_eq!(t.date, Some(date(2024, 1, 1)));
    assert_eq!(t.title, "a b %2024-05-05 c");
}

#[test]
fn invalid_date_token_stays_in_title() {
    let t = parsed("- [ ] &3 pay %2023-02-29 rent %tomorrow");
    assert_eq!(t.date, None);
    assert_eq!(t.title, "pay %2023-02-29 rent %tomorrow");
}

#[test]
fn leap_day_and_month_lengths() {
    assert_eq!(parsed("- [ ] &1 x %2000-02-29").date, Some(date(2000, 2, 29)));
    assert_eq!(parsed("- [ ] &1 x %1900-02-29").date, None);
    assert_eq!(parsed("- [ ] &1 x %2024-04-31").date, None);
    assert_eq!(parsed("- [ ] &1 x %2024-13-01").date, None);
    assert_eq!(parsed("- [ ] &1 x %2024-1-01").date, None);
}

#[test]
fn labels_keep_order_and_duplicates() {
    let t = parsed("- [ ] &8 @b title @a words @b");
    assert_eq!(t.title, "title words");
    assert_eq!(
        t.labels,
        vec!["@b".to_string(), "@a".to_string(), "@b".to_string()]
    );
}

#[test]
fn whitespace_runs_collapse_in_title() {
    let t = parsed("- [ ]\t&4   spaced \t out\u{3000}words");
    assert_eq!(t.id, 4);
    assert_eq!(t.title, "spaced out words");
}

#[test]
fn non_ascii_title() {
    let t = parsed("- [ ] &9 Café über 東京 @日本");
    assert_eq!(t.title, "Café über 東京");
    assert_eq!(t.labels, vec!["@日本".to_string()]);
    assert_eq!(parsed(&t.to_line()), t);
}

#[test]
fn urls_are_extracted_from_task() {
    let t = parsed("- [ ] &2 read https://example.com/a?b=1 and http://x.org @web");
    assert_eq!(
        task_urls(&t),
        vec!["https://example.com/a?b=1".to_string(), "http://x.org".to_string()]
    );
    let none = parsed("- [ ] &3 nothing here");
    assert!(task_urls(&none).is_empty());
}

#[test]
fn date_from_parts_checks_the_calendar() {
    assert_eq!(date_from_parts(2024, 2, 29), Some(date(2024, 2, 29)));
    assert_eq!(date_from_parts(2023, 2, 29), None);
    assert_eq!(date_from_parts(2024, 4, 31), None);
    assert_eq!(date_from_parts(10000, 1, 1), None);
    assert_eq!(date_from_parts(-1, 1, 1), None);
    assert_eq!(date_from_parts(0, 12, 31), Some(date(0, 12, 31)));
    assert_eq!(date_from_parts(2024, 13, 1), None);
    assert_eq!(date_from_parts(2024, 1, 0), None);
}

#[test]
fn url_edges() {
    let t = parsed("- [ ] &4 seexhttp://a.b/c http:// https://\u{a0}x https://ok\u{3000}tail");
    assert_eq!(
        task_urls(&t),
        vec!["http://a.b/c".to_string(), "https://ok".to_string()]
    );
    let lab = parsed("- [ ] &5 see @https://lab");
    assert_eq!(task_urls(&lab), vec!["https://lab".to_string()]);
}
