use rtd::date::CalDate;
use rtd::store::{
    add_task, all_labels, archive_tasks, get_file_labels, get_file_tasks, get_task, initialise,
    modify_task, move_task, remove_task, TaskStats,
};
use rtd::task::{parse_task, Task, TaskError};

fn file(lines: &[&str]) -> Vec<String> {
    lines.iter().map(|l| l.to_string()).collect()
}

fn date(year: u16, month: u8, day: u8) -> CalDate {
    CalDate { year, month, day }
}

fn ids(lines: &[String]) -> Vec<i32> {
    lines
        .iter()
        .filter_map(|l| parse_task(l).unwrap())
        .map(|t| t.id)
        .collect()
}

#[test]
fn add_scenario_call_dentist() {
    let inbox = file(&["- [ ] &3 Existing task", "some note"]);
    let mut stats = TaskStats { max_id: 5 };
    let out = add_task("Call dentist", &inbox, &mut stats).unwrap();
    assert_eq!(stats.max_id, 6);
    assert_eq!(out.len(), 3);
    assert_eq!(out[0], "- [ ] &6 Call dentist");
    assert_eq!(out[1], "- [ ] &3 Existing task");
    assert_eq!(out[2], "some note");
}

#[test]
fn add_keeps_date_and_labels_and_replaces_id() {
    let mut stats = TaskStats { max_id: 10 };
    let out = add_task("&2 Ship it %2024-06-01 @work", &file(&[]), &mut stats).unwrap();
    assert_eq!(out, file(&["- [ ] &11 Ship it %2024-06-01 @work"]));
    assert_eq!(stats.max_id, 11);
}

#[test]
fn add_errors_leave_stats() {
    let mut stats = TaskStats { max_id: 4 };
    assert_eq!(add_task("&x bad", &file(&[]), &mut stats), Err(TaskError::MalformedRecord));
    assert_eq!(stats.max_id, 4);
    assert_eq!(add_task("", &file(&[]), &mut stats), Ok(file(&["- [ ] &5 "])));
    assert_eq!(stats.max_id, 5);
    let mut full = TaskStats { max_id: i32::MAX };
    assert_eq!(add_task("one more", &file(&[]), &mut full), Err(TaskError::IdOverflow));
    assert_eq!(full.max_id, i32::MAX);
}

#[test]
fn toggle_scenario_done_to_undone() {
    let files = vec![file(&["intro", "- [x] &5 Buy milk %2024-01-01 @home @shop", "- [ ] &6 Other"])];
    let out = modify_task(5, &files, &None, true, false, &date(2024, 3, 3)).unwrap();
    assert_eq!(
        out,
        vec![file(&["intro", "- [ ] &5 Buy milk %2024-01-01 @home @shop", "- [ ] &6 Other"])]
    );
}

#[test]
fn toggle_date_sets_and_clears() {
    let today = date(2024, 3, 3);
    let files = vec![file(&["- [ ] &1 a", "- [ ] &2 b %2020-01-01"])];
    let set = modify_task(1, &files, &None, false, true, &today).unwrap();
    assert_eq!(set[0][0], "- [ ] &1 a %2024-03-03");
    let cleared = modify_task(2, &files, &None, false, true, &today).unwrap();
    assert_eq!(cleared[0][1], "- [ ] &2 b");
}

#[test]
fn add_label_to_every_task_of_the_id() {
    let files = vec![file(&["- [ ] &4 a @x"]), file(&["# notes", "- [ ] &4 dup"])];
    let out = modify_task(4, &files, &Some("@y".to_string()), false, false, &date(2024, 1, 1)).unwrap();
    assert_eq!(out, vec![file(&["- [ ] &4 a @x @y"]), file(&["# notes", "- [ ] &4 dup @y"])]);
}

#[test]
fn modify_unknown_id_is_not_found() {
    let files = vec![file(&["- [ ] &4 a"])];
    assert_eq!(
        modify_task(9, &files, &None, true, false, &date(2024, 1, 1)),
        Err(TaskError::NotFound)
    );
    let bad = vec![file(&["- [ ] &q a"])];
    assert_eq!(
        modify_task(9, &bad, &None, true, false, &date(2024, 1, 1)),
        Err(TaskError::MalformedRecord)
    );
}

#[test]
fn archive_scenario() {
    let files = vec![
        file(&["# Work", "- [x] &1 done one", "- [ ] &2 open two", "text", "- [x] &3 done three"]),
        file(&["- [ ] &4 open four", "- [x] &5 done five @z"]),
    ];
    let paths = vec!["/r/work.md".to_string(), "/r/sub/home.md".to_string()];
    let (out, arch) = archive_tasks(&files, &paths).unwrap();
    assert_eq!(
        out,
        vec![file(&["# Work", "- [ ] &2 open two", "text"]), file(&["- [ ] &4 open four"])]
    );
    assert_eq!(
        arch,
        file(&[
            "- [x] &1 done one /r/work.md",
            "- [x] &3 done three /r/work.md",
            "- [x] &5 done five @z /r/sub/home.md",
        ])
    );
}

#[test]
fn archive_rejects_malformed() {
    let files = vec![file(&["- [x] &zz nope"])];
    assert_eq!(
        archive_tasks(&files, &vec!["/r/a.md".to_string()]),
        Err(TaskError::MalformedRecord)
    );
}

#[test]
fn move_scenario_missing_destination() {
    let files = vec![file(&["- [ ] &5 Buy milk"])];
    assert_eq!(move_task(5, &files, false).map(|r| r.file), Err(TaskError::NoDestination));
}

#[test]
fn move_takes_line_verbatim() {
    let files = vec![
        file(&["- [ ] &1 first"]),
        file(&["top", "- [ ] &5   Buy   milk", "- [x] &6 keep  spacing"]),
        file(&["- [ ] &5 later duplicate"]),
    ];
    let rm = move_task(5, &files, true).unwrap();
    assert_eq!(rm.file, 1);
    assert_eq!(rm.lines, file(&["top", "- [x] &6 keep  spacing"]));
    assert_eq!(rm.taken, file(&["- [ ] &5   Buy   milk"]));
    assert_eq!(move_task(77, &files, true).map(|r| r.file), Err(TaskError::NotFound));
}

#[test]
fn remove_first_file_only_and_reencodes() {
    let files = vec![
        file(&["- [ ] &1 first"]),
        file(&["top", "- [x]  &5  Buy milk", "- [ ] &6   spaced"]),
        file(&["- [ ] &bad unread"]),
    ];
    let rm = remove_task(5, &files).unwrap();
    assert_eq!(rm.file, 1);
    assert_eq!(rm.lines, file(&["top", "- [ ] &6 spaced"]));
    assert_eq!(rm.taken, file(&["- [x] &5 Buy milk"]));
}

#[test]
fn remove_errors() {
    let files = vec![file(&["- [ ] &1 first"])];
    assert_eq!(remove_task(2, &files).map(|r| r.file), Err(TaskError::NotFound));
    let bad = vec![file(&["- [ ] &1 first"]), file(&["- [ ] &x bad"])];
    assert_eq!(remove_task(2, &bad).map(|r| r.file), Err(TaskError::MalformedRecord));
    assert_eq!(remove_task(1, &bad).map(|r| r.file), Ok(0));
}

#[test]
fn pass_through_of_plain_lines() {
    let plain = vec!["# Title", "", "  - [ ] indented", "* bullet", "-[ ] no space", "- []"];
    let mut lines = file(&plain);
    lines.insert(1, "- [x] &2 done".to_string());
    let files = vec![lines.clone()];
    let (_, init) = initialise(&files).unwrap();
    let modified = modify_task(2, &files, &None, true, false, &date(2024, 1, 1)).unwrap();
    let removed = remove_task(2, &files).unwrap();
    let (archived, _) = archive_tasks(&files, &vec!["/p".to_string()]).unwrap();
    for out in [&init[0], &modified[0], &removed.lines, &archived[0]] {
        let kept: Vec<&String> = out.iter().filter(|l| parse_task(l).unwrap().is_none()).collect();
        assert_eq!(kept, plain.iter().map(|s| s.to_string()).collect::<Vec<_>>().iter().collect::<Vec<_>>());
    }
}

#[test]
fn initialise_assigns_unique_ids() {
    let files = vec![
        file(&["- [ ] first unassigned", "- [ ] &3 three", "note", "- [ ] second unassigned"]),
        file(&["- [x] &-1 third unassigned", "- [ ] &7 seven"]),
    ];
    let (stats, out) = initialise(&files).unwrap();
    assert_eq!(stats.max_id, 9);
    assert_eq!(
        out,
        vec![
            file(&["- [ ] &-1 first unassigned", "- [ ] &3 three", "note", "- [ ] &8 second unassigned"]),
            file(&["- [x] &9 third unassigned", "- [ ] &7 seven"]),
        ]
    );
    let mut all: Vec<i32> = out.iter().flat_map(|f| ids(f)).collect();
    let n = all.len();
    all.sort();
    all.dedup();
    assert_eq!(all.len(), n);
}

#[test]
fn initialise_empty_tree_and_errors() {
    let (stats, out) = initialise(&vec![]).unwrap();
    assert_eq!(stats.max_id, 0);
    assert!(out.is_empty());
    assert_eq!(
        initialise(&vec![file(&["- [ ] &1.5 bad"])]).map(|r| r.0.max_id),
        Err(TaskError::MalformedRecord)
    );
    let full = vec![file(&["- [ ] &2147483647 top", "- [ ] a", "- [ ] b"])];
    assert_eq!(initialise(&full).map(|r| r.0.max_id), Err(TaskError::IdOverflow));
}

#[test]
fn due_filter_boundary() {
    let today = date(2024, 5, 10);
    let lines = file(&[
        "- [ ] &1 due today %2024-05-10",
        "- [ ] &2 due tomorrow %2024-05-11",
        "- [ ] &3 overdue %2023-12-31",
        "- [ ] &4 no date",
        "- [ ] &5 next month %2024-06-01",
    ]);
    let due = get_file_tasks(&lines, true, &None, &today).unwrap();
    assert_eq!(due.iter().map(|t| t.id).collect::<Vec<_>>(), vec![1, 3]);
    let all = get_file_tasks(&lines, false, &None, &today).unwrap();
    assert_eq!(all.len(), 5);
}

#[test]
fn due_filter_across_year_end() {
    let today = date(2024, 12, 31);
    let lines = file(&["- [ ] &1 a %2024-12-31", "- [ ] &2 b %2025-01-01"]);
    let due = get_file_tasks(&lines, true, &None, &today).unwrap();
    assert_eq!(due.iter().map(|t| t.id).collect::<Vec<_>>(), vec![1]);
}

#[test]
fn label_filter_is_exact() {
    let lines = file(&[
        "- [ ] &1 a @work",
        "- [ ] &2 b @workshop",
        "- [ ] &3 c @home @work",
        "- [ ] &4 d @wor",
        "- [ ] &5 e mentions work",
    ]);
    let got = get_file_tasks(&lines, false, &Some("@work".to_string()), &date(2024, 1, 1)).unwrap();
    assert_eq!(got.iter().map(|t| t.id).collect::<Vec<_>>(), vec![1, 3]);
}

#[test]
fn label_filter_excludes_prefix_and_substring() {
    let lines = file(&["- [ ] &1 a @workshop @homework", "- [ ] &2 b @work"]);
    let got = get_file_tasks(&lines, false, &Some("@work".to_string()), &date(2024, 1, 1)).unwrap();
    assert_eq!(
        got,
        vec![Task {
            is_done: false,
            id: 2,
            title: "b".to_string(),
            date: None,
            labels: vec!["@work".to_string()],
        }]
    );
}

#[test]
fn filters_combine_and_errors() {
    let lines = file(&["- [ ] &1 a @w %2024-01-01", "- [ ] &2 b @w %2030-01-01", "- [ ] &3 c %2024-01-01"]);
    let got = get_file_tasks(&lines, true, &Some("@w".to_string()), &date(2024, 6, 1)).unwrap();
    assert_eq!(got.iter().map(|t| t.id).collect::<Vec<_>>(), vec![1]);
    let bad = file(&["- [ ] &? a"]);
    assert_eq!(
        get_file_tasks(&bad, false, &None, &date(2024, 1, 1)).map(|v| v.len()),
        Err(TaskError::MalformedRecord)
    );
}

#[test]
fn labels_once_each() {
    let lines = file(&["- [ ] &1 a @x @y", "text @z", "- [ ] &2 b @y @w @x"]);
    let mut got = get_file_labels(&lines).unwrap();
    got.sort();
    assert_eq!(got, file(&["@w", "@x", "@y"]));
    let files = vec![lines, file(&["- [ ] &3 c @v @w"])];
    let mut every = all_labels(&files).unwrap();
    every.sort();
    assert_eq!(every, file(&["@v", "@w", "@x", "@y"]));
    assert_eq!(get_file_labels(&file(&["- [ ] &! x"])), Err(TaskError::MalformedRecord));
}

#[test]
fn get_task_first_match() {
    let files = vec![
        file(&["- [ ] &1 one"]),
        file(&["- [x] &2 two @a", "- [ ] &2 second two"]),
        file(&["- [ ] &oops"]),
    ];
    let t = get_task(2, &files).unwrap().unwrap();
    assert_eq!(t.title, "two");
    assert!(t.is_done);
    assert_eq!(get_task(3, &files).map(|o| o.is_some()), Err(TaskError::MalformedRecord));
    assert_eq!(get_task(3, &files[..2].to_vec()).map(|o| o.is_some()), Ok(false));
}
