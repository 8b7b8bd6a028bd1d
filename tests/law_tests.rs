use mdtodo::{append_to_done, Config, Entry, Task, TodoError, TodoFile};

fn task(text: &str, done: bool, date: Option<&str>) -> Task {
    Task {
        text: text.to_string(),
        done,
        done_date: date.map(|d| d.to_string()),
    }
}

fn texts(todo: &TodoFile, section: &str) -> Vec<String> {
    let i = todo.find_section(section).unwrap();
    todo.sections[i].tasks().into_iter().map(|t| t.text).collect()
}

#[test]
fn decode_of_encode_gives_the_task_back() {
    for t in [
        task("Buy milk", false, None),
        task("Done thing", true, Some("2026-02-13")),
        task("Legacy", true, None),
        task("", true, Some("1999-12-31")),
        task("a ✅ 2020-01-01", false, Some("2021-01-01")),
    ] {
        assert_eq!(Task::from_line(&t.to_markdown()), Some(t));
    }
}

#[test]
fn from_line_rejects_non_tasks() {
    assert_eq!(Task::from_line("- [ ] "), None);
    assert_eq!(Task::from_line("- [y] x"), None);
    assert_eq!(Task::from_line("* [ ] x"), None);
    assert_eq!(Task::from_line("plain text"), None);
    let t = Task::from_line("- [x] bad date ✅ 2026-2-13").unwrap();
    assert_eq!(t.text, "bad date ✅ 2026-2-13");
    assert_eq!(t.done_date, None);
}

#[test]
fn reparse_keeps_sections_and_tasks() {
    let text = "# TODO\nintro\n\n## Today\nnote first\n- [ ] A\n\n   \n- [x] B ✅ 2026-02-13\ntrailing note\n## Next\n- [x] C\n";
    let d = TodoFile::parse(text);
    let again = TodoFile::parse(&d.to_string());
    assert_eq!(again.header_lines, d.header_lines);
    assert_eq!(again.sections.len(), d.sections.len());
    for (a, b) in again.sections.iter().zip(d.sections.iter()) {
        assert_eq!(a.name, b.name);
        assert_eq!(a.tasks(), b.tasks());
    }
    assert_eq!(
        d.to_string(),
        "# TODO\nintro\n\n## Today\nnote first\n- [ ] A\n- [x] B ✅ 2026-02-13\ntrailing note\n\n## Next\n- [x] C\n\n"
    );
}

#[test]
fn serialize_is_idempotent_after_one_pass() {
    for text in [
        "",
        "no sections\n\n",
        "## A\n\n\n- [ ] x\n  \nfree\n## B",
        "##  spaced\n- [ ] y ✅ 2026-01-01\r\n",
    ] {
        let once = TodoFile::parse(text).to_string();
        let twice = TodoFile::parse(&once).to_string();
        assert_eq!(once, twice);
    }
}

#[test]
fn done_then_undone_restores_the_task() {
    let text = "## Today\n- [ ] A\n- [ ] B\nnote\n- [x] C ✅ 2026-01-02\n";
    let mut todo = TodoFile::parse(text);
    let done = todo.mark_done("today:2", "2026-02-13".to_string()).unwrap();
    assert_eq!(done, task("B", true, Some("2026-02-13")));
    let open = todo.mark_undone("Today:2").unwrap();
    assert_eq!(open, task("B", false, None));
    assert_eq!(todo.to_string(), TodoFile::parse(text).to_string());
}

#[test]
fn delete_second_of_three_renumbers() {
    let mut todo = TodoFile::parse("## S\n- [ ] Task1\n- [ ] Task2\n- [ ] Task3\n");
    let gone = todo.delete_tasks("S:2").unwrap();
    assert_eq!(gone, vec![(2, task("Task2", false, None))]);
    let numbered = todo.numbered_tasks();
    assert_eq!(numbered[0].1[0], (1, task("Task1", false, None)));
    assert_eq!(numbered[0].1[1], (2, task("Task3", false, None)));
}

#[test]
fn archive_of_open_task_is_refused() {
    let text = "## Today\n- [ ] A\n- [x] B ✅ 2026-02-13\n";
    let mut todo = TodoFile::parse(text);
    assert_eq!(
        todo.take_archived("Today:1,2"),
        Err(TodoError::NotCompleted("Today".to_string(), 1))
    );
    let reloaded = TodoFile::parse(&todo.to_string());
    assert_eq!(texts(&reloaded, "Today"), vec!["A", "B"]);
}

#[test]
fn archive_takes_done_tasks() {
    let mut todo = TodoFile::parse("## Today\n- [x] A ✅ 2026-02-12\n- [ ] B\n- [x] C\n- [x] D ✅ 2026-02-13\n");
    let taken = todo.take_archived("Today:all").unwrap();
    let nums: Vec<usize> = taken.iter().map(|p| p.0).collect();
    assert_eq!(nums, vec![1, 3, 4]);
    assert_eq!(texts(&todo, "Today"), vec!["B"]);
    assert_eq!(
        todo.take_archived("Today:5"),
        Err(TodoError::TaskNotFound("Today".to_string(), 5))
    );
    assert_eq!(todo.take_archived("Today:x"), Err(TodoError::InvalidNumber));
    assert_eq!(
        todo.take_archived("Later:1"),
        Err(TodoError::SectionNotFound("Later".to_string()))
    );
    let log = append_to_done("# Done Log\n\nold stuff\n", "Today", &taken);
    assert_eq!(
        log,
        "# Done Log\n\n## unknown\n\n### Today\n- [x] C\n\n## 2026-02-13\n\n### Today\n- [x] D ✅ 2026-02-13\n\n## 2026-02-12\n\n### Today\n- [x] A ✅ 2026-02-12\n\n"
    );
}

#[test]
fn done_log_header_is_synthesised() {
    assert_eq!(append_to_done("", "S", &Vec::new()), "# Done Log\n\n");
    assert_eq!(append_to_done("# Done Log\nx\n", "S", &Vec::new()), "# Done Log\n");
    assert_eq!(append_to_done("other\n", "S", &Vec::new()), "# Done Log\n\n");
}

#[test]
fn move_three_and_one_to_next() {
    let mut todo = TodoFile::parse("## Today\n- [ ] T1\n- [ ] T2\n- [ ] T3\n\n## Next\n- [ ] N1\n");
    let moved = todo.move_tasks("Today:3,1", "Next").unwrap();
    let nums: Vec<usize> = moved.iter().map(|p| p.0).collect();
    assert_eq!(nums, vec![1, 3]);
    assert_eq!(texts(&todo, "Today"), vec!["T2"]);
    assert_eq!(texts(&todo, "Next"), vec!["N1", "T1", "T3"]);
}

#[test]
fn listing_today_shows_two_entries() {
    let todo = TodoFile::parse("# TODO\n\n## Today\n- [ ] A\n- [x] B ✅ 2026-02-13\n\n## Next\n- [ ] C\n");
    let numbered = todo.numbered_tasks();
    let today = &numbered.iter().find(|(n, _)| n == "Today").unwrap().1;
    let lines: Vec<String> = today
        .iter()
        .map(|(n, t)| format!("{}: {}", n, t.to_markdown().trim_start_matches("- ")))
        .collect();
    assert_eq!(lines, vec!["1: [ ] A", "2: [x] B ✅ 2026-02-13"]);
}

#[test]
fn errors_name_the_reference() {
    let mut todo = TodoFile::parse("## Today\n- [ ] A\n");
    assert_eq!(todo.mark_done("Today", "d".to_string()), Err(TodoError::InvalidReference));
    assert_eq!(todo.mark_done("Today:x", "d".to_string()), Err(TodoError::InvalidNumber));
    assert_eq!(
        todo.mark_done("Nope:1", "d".to_string()),
        Err(TodoError::SectionNotFound("Nope".to_string()))
    );
    assert_eq!(
        todo.mark_done("Today:0", "d".to_string()),
        Err(TodoError::TaskNotFound("Today".to_string(), 0))
    );
    assert_eq!(
        todo.delete_tasks("Today:0,1,7,9"),
        Err(TodoError::TaskNotFound("Today".to_string(), 9))
    );
    assert_eq!(
        todo.delete_tasks("Today:0,1"),
        Err(TodoError::TaskNotFound("Today".to_string(), 0))
    );
    assert_eq!(texts(&todo, "Today"), vec!["A"]);
}

#[test]
fn add_appends_after_kept_lines() {
    let mut todo = TodoFile::parse("## Inbox\n- [ ] A\nnote\n");
    let i = todo.add_task("inbox", "B".to_string());
    assert_eq!(i, 0);
    let j = todo.add_task("Fresh", "C".to_string());
    assert_eq!(j, 1);
    assert_eq!(todo.to_string(), "## Inbox\n- [ ] A\nnote\n- [ ] B\n\n## Fresh\n- [ ] C\n\n");
    assert!(matches!(todo.sections[0].entries[1], Entry::Line(_)));
}

#[test]
fn get_or_create_section_matches_any_case() {
    let mut todo = TodoFile::parse("## Today\n");
    assert_eq!(todo.get_or_create_section("TODAY"), 0);
    assert_eq!(todo.get_or_create_section("Later"), 1);
    assert_eq!(todo.sections[1].name, "Later");
}

#[test]
fn home_expansion() {
    assert_eq!(
        mdtodo::config::expand_with_home("~/notes/TODO.md", Some("/home/u".to_string())),
        Ok("/home/u/notes/TODO.md".to_string())
    );
    assert_eq!(
        mdtodo::config::expand_with_home("~/x", Some("/root/".to_string())),
        Ok("/root/x".to_string())
    );
    assert_eq!(
        mdtodo::config::expand_with_home("~//abs", Some("/h".to_string())),
        Ok("/abs".to_string())
    );
    assert_eq!(
        mdtodo::config::expand_with_home("~/x", None),
        Err(TodoError::HomeNotFound)
    );
    assert_eq!(
        mdtodo::config::expand_with_home("./TODO.md", None),
        Ok("./TODO.md".to_string())
    );
    let c = Config::default();
    assert_eq!(c.todo_path(), Ok("./TODO.md".to_string()));
    assert_eq!(c.done_path(), Ok("./done_list.md".to_string()));
}

#[test]
fn listing_filters_by_name_in_any_case() {
    let todo = TodoFile::parse("## Today\n- [ ] A\n## Next\n- [ ] B\n## TODAY\n- [ ] C\n");
    let all = todo.listing(None);
    assert_eq!(all.len(), 3);
    let some = todo.listing(Some("today"));
    let names: Vec<&str> = some.iter().map(|(n, _)| n.as_str()).collect();
    assert_eq!(names, vec!["Today", "TODAY"]);
    assert_eq!(some[1].1, vec![(1, task("C", false, None))]);
    assert!(todo.listing(Some("none")).is_empty());
}

#[test]
fn task_lines_are_trimmed() {
    let t = Task::from_line("  - [ ] a  ").unwrap();
    assert_eq!(t, task("a", false, None));
    let t = Task::from_line("\t- [x] b ✅ 2026-02-13 ").unwrap();
    assert_eq!(t, task("b", true, Some("2026-02-13")));
    assert_eq!(Task::from_line("   "), None);
    let todo = TodoFile::parse("## S\n - [ ] indented\n");
    assert_eq!(texts(&todo, "S"), vec!["indented"]);
}

#[test]
fn crlf_line_ends_are_dropped() {
    let todo = TodoFile::parse("a\r\n## S\r\n- [ ] t\r\nnote\r\n");
    assert_eq!(todo.header_lines, vec!["a".to_string()]);
    assert_eq!(todo.sections[0].name, "S");
    assert!(todo.find_section("s").is_some());
    assert_eq!(texts(&todo, "S"), vec!["t"]);
    assert_eq!(todo.to_string(), "a\n## S\n- [ ] t\nnote\n\n");
}

#[test]
fn heading_skips_the_whitespace_run() {
    let todo = TodoFile::parse("##  Foo\n##\tBar\n##   \n## x\n#  no\n");
    let names: Vec<&str> = todo.sections.iter().map(|s| s.name.as_str()).collect();
    assert_eq!(names, vec!["Foo", "Bar", " ", "x"]);
}

#[test]
fn done_log_merges_with_earlier_blocks() {
    let log = "# Done Log\n\n## 2026-02-13\n\n### Today\n- [x] Old ✅ 2026-02-13\n\n### Work\n- [x] W ✅ 2026-02-13\n\n## 2026-02-01\n\n### Today\n- [x] Older ✅ 2026-02-01\n";
    let new = vec![
        (1, task("D", true, Some("2026-02-13"))),
        (2, task("E", true, Some("2026-02-20"))),
    ];
    assert_eq!(
        append_to_done(log, "Today", &new),
        "# Done Log\n\n## 2026-02-20\n\n### Today\n- [x] E ✅ 2026-02-20\n\n## 2026-02-13\n\n### Today\n- [x] Old ✅ 2026-02-13\n- [x] D ✅ 2026-02-13\n\n### Work\n- [x] W ✅ 2026-02-13\n\n## 2026-02-01\n\n### Today\n- [x] Older ✅ 2026-02-01\n\n"
    );
    let again = append_to_done(&append_to_done(log, "Today", &new), "Today", &Vec::new());
    assert_eq!(again, append_to_done(log, "Today", &new));
}

#[test]
fn done_log_title_with_crlf_is_kept() {
    assert_eq!(append_to_done("# Done Log\r\nfoo", "S", &Vec::new()), "# Done Log\n");
    assert_eq!(append_to_done("# Done Log\r\n\r\n", "S", &Vec::new()), "# Done Log\n\n");
}

#[test]
fn today_has_date_form() {
    let today = Config::default().today_str().unwrap();
    let b = today.as_bytes();
    assert_eq!(b.len(), 10);
    assert_eq!(b[4], b'-');
    assert_eq!(b[7], b'-');
    assert!(today.chars().filter(|c| *c != '-').all(|c| c.is_ascii_digit()));
}
