use tarn::extract::ExtractFrom;
use tarn::tasks::{Task, TaskStatus};

#[test]
fn task_status_cancelled() {
    let body = "Some text.\n\n- [-] Cancelled task\n- [ ] Open task\n";
    let tasks = Task::extract_from(body);

    assert_eq!(tasks.len(), 2);

    assert_eq!(tasks[0].status, TaskStatus::Canceled);
    assert_eq!(tasks[0].text, "Cancelled task");
    assert_eq!(tasks[0].line, 3);

    assert_eq!(tasks[1].status, TaskStatus::Open);
    assert_eq!(tasks[1].line, 4);
}

#[test]
fn task_status_custom() {
    let body = "\
- [>] Deferred task
- [?] Question task
- [!] Important task
- [x] Completed task
";
    let tasks = Task::extract_from(body);

    assert_eq!(tasks.len(), 4);

    assert_eq!(tasks[0].status, TaskStatus::Custom('>'));
    assert_eq!(tasks[0].text, "Deferred task");

    assert_eq!(tasks[1].status, TaskStatus::Custom('?'));
    assert_eq!(tasks[1].text, "Question task");

    assert_eq!(tasks[2].status, TaskStatus::Custom('!'));
    assert_eq!(tasks[2].text, "Important task");

    assert_eq!(tasks[3].status, TaskStatus::Done);
    assert_eq!(tasks[3].text, "Completed task");
}

#[test]
fn extract_with_offset() {
    let body = "- [ ] First\n- [x] Second\n";
    let tasks = Task::extract_from_with_offset(body, 10);

    assert_eq!(tasks.len(), 2);
    assert_eq!(tasks[0].line, 10);
    assert_eq!(tasks[1].line, 11);
}

#[test]
fn empty_content_no_tasks() {
    let tasks = Task::extract_from("");
    assert!(tasks.is_empty());
}

#[test]
fn uppercase_x_marks_done() {
    let body = "- [X] Done with uppercase\n";
    let tasks = Task::extract_from(body);
    assert_eq!(tasks.len(), 1);
    assert_eq!(tasks[0].status, TaskStatus::Done);
    assert_eq!(tasks[0].text, "Done with uppercase");
}

#[test]
fn task_with_empty_text() {
    let body = "- [x] \n";
    let tasks = Task::extract_from(body);
    assert_eq!(tasks.len(), 1);
    assert_eq!(tasks[0].status, TaskStatus::Done);
    assert_eq!(tasks[0].text, "");
}

#[test]
fn non_task_list_items_skipped() {
    let body = "- regular item\n- another item\n- [ ] actual task\n";
    let tasks = Task::extract_from(body);
    assert_eq!(tasks.len(), 1);
    assert_eq!(tasks[0].text, "actual task");
}

#[test]
fn indented_tasks() {
    let body = "  - [ ] Indented with spaces\n\t- [x] Indented with tab\n";
    let tasks = Task::extract_from(body);

    assert_eq!(tasks.len(), 2);
    assert_eq!(tasks[0].text, "Indented with spaces");
    assert_eq!(tasks[1].text, "Indented with tab");
}
