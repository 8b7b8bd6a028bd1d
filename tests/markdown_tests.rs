use mdtodo::{Config, Task, TodoError, TodoFile};

fn task(text: &str, done: bool, date: Option<&str>) -> Task {
    Task {
        text: text.to_string(),
        done,
        done_date: date.map(|d| d.to_string()),
    }
}

#[test]
fn test_task_parsing() {
    let task = Task::from_line("- [ ] Test task").unwrap();
    assert_eq!(task.text, "Test task");
    assert!(!task.done);
    assert_eq!(task.done_date, None);

    let done_task = Task::from_line("- [x] Done task ✅ 2026-02-13").unwrap();
    assert_eq!(done_task.text, "Done task");
    assert!(done_task.done);
    assert_eq!(done_task.done_date, Some("2026-02-13".to_string()));
}

#[test]
fn test_todo_file_parsing() {
    let content = "# TODO\n\n## Today\n- [ ] Task 1\n- [x] Task 2 ✅ 2026-02-13\n\n## Next\n- [ ] Task 3\n";
    let todo = TodoFile::parse(content);
    assert_eq!(todo.sections.len(), 2);
    assert_eq!(todo.sections[0].name, "Today");
    assert_eq!(todo.sections[0].tasks().len(), 2);
    assert_eq!(todo.sections[1].name, "Next");
    assert_eq!(todo.sections[1].tasks().len(), 1);
}

#[test]
fn test_markdown_parsing_with_done_dates() {
    let content = "# TODO\n\n## Today\n- [ ] Task 1\n- [x] Task 2 ✅ 2026-02-13\n\n## Next\n- [ ] Task 3\n";
    let todo = TodoFile::parse(content);
    assert_eq!(todo.sections.len(), 2);

    let today = &todo.sections[0];
    let tasks = today.tasks();
    assert_eq!(today.name, "Today");
    assert_eq!(tasks.len(), 2);
    assert!(!tasks[0].done);
    assert_eq!(tasks[0].text, "Task 1");
    assert!(tasks[1].done);
    assert_eq!(tasks[1].text, "Task 2");
    assert_eq!(tasks[1].done_date, Some("2026-02-13".to_string()));

    let next = &todo.sections[1];
    assert_eq!(next.name, "Next");
    assert_eq!(next.tasks().len(), 1);
    assert_eq!(next.tasks()[0].text, "Task 3");
}

#[test]
fn test_find_section_case_insensitive() {
    let content = "# TODO\n\n## Today\n- [ ] Task 1\n\n## PROJECT1\n- [ ] Task 2\n";
    let todo = TodoFile::parse(content);
    assert!(todo.find_section("today").is_some());
    assert!(todo.find_section("TODAY").is_some());
    assert!(todo.find_section("Today").is_some());
    assert!(todo.find_section("project1").is_some());
    assert!(todo.find_section("nonexistent").is_none());
}

#[test]
fn test_roundtrip_preserves_content() {
    let content = "# TODO\n\n## Today\n- [ ] Task 1\n- [x] Task 2 ✅ 2026-02-13\n\n## Next\n- [ ] Task 3\n\n## Backlogs\n- [ ] Task 4\n- [ ] Task 5\n";
    let todo = TodoFile::parse(content);
    let output = todo.to_string();

    assert!(output.contains("# TODO"));
    assert!(output.contains("## Today"));
    assert!(output.contains("- [ ] Task 1"));
    assert!(output.contains("- [x] Task 2 ✅ 2026-02-13"));
    assert!(output.contains("## Next"));
    assert!(output.contains("- [ ] Task 3"));
    assert!(output.contains("## Backlogs"));
    assert!(output.contains("- [ ] Task 4"));
    assert!(output.contains("- [ ] Task 5"));
}

#[test]
fn test_task_to_markdown() {
    let undone = task("Buy groceries", false, None);
    assert_eq!(undone.to_markdown(), "- [ ] Buy groceries");

    let done = task("Clean desk", true, Some("2026-02-13"));
    assert_eq!(done.to_markdown(), "- [x] Clean desk ✅ 2026-02-13");

    let done_no_date = task("Old task", true, None);
    assert_eq!(done_no_date.to_markdown(), "- [x] Old task");
}

#[test]
fn test_empty_file() {
    let todo = TodoFile::parse("");
    assert_eq!(todo.sections.len(), 0);
    assert_eq!(todo.header_lines.len(), 0);
}

#[test]
fn test_numbered_tasks() {
    let content = "# TODO\n\n## Today\n- [ ] Task A\n- [ ] Task B\n- [ ] Task C\n";
    let todo = TodoFile::parse(content);
    let numbered = todo.numbered_tasks();

    let today_tasks = &numbered.iter().find(|(name, _)| name == "Today").unwrap().1;
    assert_eq!(today_tasks.len(), 3);
    assert_eq!(today_tasks[0].0, 1);
    assert_eq!(today_tasks[0].1.text, "Task A");
    assert_eq!(today_tasks[1].0, 2);
    assert_eq!(today_tasks[1].1.text, "Task B");
    assert_eq!(today_tasks[2].0, 3);
    assert_eq!(today_tasks[2].1.text, "Task C");
}

#[test]
fn test_task_lifecycle() {
    let mut todo = TodoFile::parse("# TODO\n\n## Today\n\n## Next\n");
    todo.add_task("Today", "Buy milk".to_string());
    let content = todo.to_string();
    assert!(content.contains("- [ ] Buy milk"));

    let mut todo = TodoFile::parse(&content);
    todo.mark_done("Today:1", "2026-02-13".to_string()).unwrap();
    let content = todo.to_string();
    assert!(content.contains("- [x] Buy milk ✅ 2026-02-13"));

    let mut todo = TodoFile::parse(&content);
    todo.mark_undone("Today:1").unwrap();
    let content = todo.to_string();
    assert!(content.contains("- [ ] Buy milk"));
    assert!(!content.contains("✅"));
}

#[test]
fn test_section_preservation() {
    let content = "# TODO\n\n## Today\n- [ ] Task 1\n- [ ] Task 2\n\n## PROJECT1\n- [ ] Task 3\n\n## Waiting\n- [ ] Task 4\n";
    let todo = TodoFile::parse(content);
    assert_eq!(todo.sections.len(), 3);
    assert_eq!(todo.sections[0].name, "Today");
    assert_eq!(todo.sections[1].name, "PROJECT1");
    assert_eq!(todo.sections[2].name, "Waiting");

    let reloaded = TodoFile::parse(&todo.to_string());
    assert_eq!(reloaded.sections.len(), 3);
    assert_eq!(reloaded.sections[0].tasks().len(), 2);
    assert_eq!(reloaded.sections[1].tasks().len(), 1);
    assert_eq!(reloaded.sections[2].tasks().len(), 1);
}

#[test]
fn test_delete_single_task() {
    let content = "# TODO\n\n## Today\n- [ ] Task 1\n- [ ] Task 2\n- [ ] Task 3\n\n## Next\n- [ ] Task 4\n";
    let mut todo = TodoFile::parse(content);
    let section_idx = todo.find_section("Today").unwrap();
    assert_eq!(todo.sections[section_idx].tasks().len(), 3);

    let removed = todo.delete_tasks("Today:2").unwrap();
    assert_eq!(removed[0].1.text, "Task 2");

    let reloaded = TodoFile::parse(&todo.to_string());
    let section_idx = reloaded.find_section("Today").unwrap();
    let tasks = reloaded.sections[section_idx].tasks();
    assert_eq!(tasks.len(), 2);
    assert_eq!(tasks[0].text, "Task 1");
    assert_eq!(tasks[1].text, "Task 3");

    let next_idx = reloaded.find_section("Next").unwrap();
    let next = reloaded.sections[next_idx].tasks();
    assert_eq!(next.len(), 1);
    assert_eq!(next[0].text, "Task 4");
}

#[test]
fn test_delete_multiple_tasks() {
    let content = "# TODO\n\n## Today\n- [ ] Task 1\n- [ ] Task 2\n- [ ] Task 3\n- [ ] Task 4\n- [ ] Task 5\n";
    let mut todo = TodoFile::parse(content);
    todo.delete_tasks("Today:4,2").unwrap();

    let reloaded = TodoFile::parse(&todo.to_string());
    let section_idx = reloaded.find_section("Today").unwrap();
    let tasks = reloaded.sections[section_idx].tasks();
    assert_eq!(tasks.len(), 3);
    assert_eq!(tasks[0].text, "Task 1");
    assert_eq!(tasks[1].text, "Task 3");
    assert_eq!(tasks[2].text, "Task 5");
}

#[test]
fn test_delete_completed_task() {
    let content = "# TODO\n\n## Today\n- [ ] Task 1\n- [x] Completed task ✅ 2026-02-13\n- [ ] Task 3\n";
    let mut todo = TodoFile::parse(content);
    let removed = todo.delete_tasks("Today:2").unwrap();
    assert_eq!(removed[0].1.text, "Completed task");
    assert!(removed[0].1.done);
    assert_eq!(removed[0].1.done_date, Some("2026-02-13".to_string()));

    let reloaded = TodoFile::parse(&todo.to_string());
    let section_idx = reloaded.find_section("Today").unwrap();
    let tasks = reloaded.sections[section_idx].tasks();
    assert_eq!(tasks.len(), 2);
    assert_eq!(tasks[0].text, "Task 1");
    assert_eq!(tasks[1].text, "Task 3");
}

#[test]
fn test_edit_task_text() {
    let content = "# TODO\n\n## Today\n- [ ] Old task text\n- [ ] Another task\n\n## Next\n- [ ] Unrelated task\n";
    let mut todo = TodoFile::parse(content);
    let before = todo.edit_task("Today:1", "Updated task text".to_string()).unwrap();
    assert_eq!(before.text, "Old task text");

    let reloaded = TodoFile::parse(&todo.to_string());
    let section_idx = reloaded.find_section("Today").unwrap();
    let tasks = reloaded.sections[section_idx].tasks();
    assert_eq!(tasks[0].text, "Updated task text");
    assert!(!tasks[0].done);
    assert_eq!(tasks[1].text, "Another task");

    let next_idx = reloaded.find_section("Next").unwrap();
    assert_eq!(reloaded.sections[next_idx].tasks()[0].text, "Unrelated task");
}

#[test]
fn test_edit_preserves_done_state() {
    let content = "# TODO\n\n## Today\n- [x] Completed task ✅ 2026-02-13\n";
    let mut todo = TodoFile::parse(content);
    todo.edit_task("Today:1", "Edited completed task".to_string()).unwrap();

    let saved = todo.to_string();
    let reloaded = TodoFile::parse(&saved);
    let section_idx = reloaded.find_section("Today").unwrap();
    let task = &reloaded.sections[section_idx].tasks()[0];
    assert_eq!(task.text, "Edited completed task");
    assert!(task.done);
    assert_eq!(task.done_date, Some("2026-02-13".to_string()));
    assert!(saved.contains("- [x] Edited completed task ✅ 2026-02-13"));
}

#[test]
fn test_move_task_between_sections() {
    let content = "# TODO\n\n## Today\n- [ ] Task A\n- [ ] Task B\n\n## Next\n- [ ] Task C\n";
    let mut todo = TodoFile::parse(content);
    let moved = todo.move_tasks("Today:2", "Next").unwrap();
    assert_eq!(moved[0].1.text, "Task B");

    let reloaded = TodoFile::parse(&todo.to_string());
    let today_idx = reloaded.find_section("Today").unwrap();
    let today = reloaded.sections[today_idx].tasks();
    assert_eq!(today.len(), 1);
    assert_eq!(today[0].text, "Task A");

    let next_idx = reloaded.find_section("Next").unwrap();
    let next = reloaded.sections[next_idx].tasks();
    assert_eq!(next.len(), 2);
    assert_eq!(next[0].text, "Task C");
    assert_eq!(next[1].text, "Task B");
}

#[test]
fn test_move_to_new_section() {
    let content = "# TODO\n\n## Today\n- [ ] Task A\n- [ ] Task B\n";
    let mut todo = TodoFile::parse(content);
    todo.move_tasks("Today:1", "Urgent").unwrap();

    let reloaded = TodoFile::parse(&todo.to_string());
    assert_eq!(reloaded.sections.len(), 2);

    let today_idx = reloaded.find_section("Today").unwrap();
    let today = reloaded.sections[today_idx].tasks();
    assert_eq!(today.len(), 1);
    assert_eq!(today[0].text, "Task B");

    let urgent_idx = reloaded.find_section("Urgent").unwrap();
    let urgent = reloaded.sections[urgent_idx].tasks();
    assert_eq!(urgent.len(), 1);
    assert_eq!(urgent[0].text, "Task A");
}

#[test]
fn test_default_config() {
    let config = Config::default();
    assert_eq!(config.todo_path, "./TODO.md");
    assert_eq!(config.done_path, "./done_list.md");
    assert_eq!(config.timezone, "Local");
}

#[test]
fn test_today_str_local() {
    let config = Config::default();
    let today = config.today_str().unwrap();
    let expected = chrono::Local::now().format("%Y-%m-%d").to_string();
    assert_eq!(today, expected);
}

#[test]
fn test_today_str_named_timezone() {
    let config = Config {
        timezone: "Asia/Tokyo".to_string(),
        ..Config::default()
    };
    let today = config.today_str().unwrap();
    let expected = chrono::Utc::now()
        .with_timezone(&"Asia/Tokyo".parse::<chrono_tz::Tz>().unwrap())
        .format("%Y-%m-%d")
        .to_string();
    assert_eq!(today, expected);
}

#[test]
fn test_today_str_invalid_timezone() {
    let config = Config {
        timezone: "Invalid/Zone".to_string(),
        ..Config::default()
    };
    let result = config.today_str();
    assert!(result.is_err());
    assert_eq!(
        result.unwrap_err(),
        TodoError::InvalidTimezone("Invalid/Zone".to_string())
    );
}
