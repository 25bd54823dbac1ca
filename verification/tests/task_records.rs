use task_manager::task::{Task, TaskStatus};

#[test]
fn new_task_is_pending_and_keeps_its_texts() {
    let task = Task::new(7, String::from("Write report"), String::from("due Friday"));
    assert_eq!(task.id(), 7);
    assert_eq!(task.title(), "Write report");
    assert_eq!(task.description(), "due Friday");
    assert_eq!(task.status(), TaskStatus::Pending);
}

#[test]
fn empty_texts_are_allowed() {
    let task = Task::new(0, String::new(), String::new());
    assert_eq!(task.id(), 0);
    assert_eq!(task.title(), "");
    assert_eq!(task.description(), "");
}

#[test]
fn mark_completed_sets_completed_and_nothing_else() {
    let mut task = Task::new(3, String::from("t"), String::from("d"));
    task.mark_completed();
    assert_eq!(task.status(), TaskStatus::Completed);
    assert_eq!(task.id(), 3);
    assert_eq!(task.title(), "t");
    assert_eq!(task.description(), "d");
}

#[test]
fn mark_completed_twice_is_mark_completed_once() {
    let mut task = Task::new(3, String::from("t"), String::from("d"));
    task.mark_completed();
    task.mark_completed();
    assert_eq!(task.status(), TaskStatus::Completed);
}

#[test]
fn mark_deleted_twice_is_mark_deleted_once() {
    let mut task = Task::new(3, String::from("t"), String::from("d"));
    task.mark_deleted();
    task.mark_deleted();
    assert_eq!(task.status(), TaskStatus::Deleted);
}

#[test]
fn any_status_can_be_overwritten() {
    let mut task = Task::new(1, String::from("t"), String::from("d"));
    task.mark_completed();
    task.mark_deleted();
    assert_eq!(task.status(), TaskStatus::Deleted);
    task.mark_completed();
    assert_eq!(task.status(), TaskStatus::Completed);
}

#[test]
fn clone_keeps_every_field() {
    let mut task = Task::new(12, String::from("títle"), String::from("dèsc"));
    task.mark_deleted();
    let copy = task.clone();
    assert_eq!(copy.id(), 12);
    assert_eq!(copy.title(), "títle");
    assert_eq!(copy.description(), "dèsc");
    assert_eq!(copy.status(), TaskStatus::Deleted);
}

#[test]
fn status_words() {
    assert_eq!(TaskStatus::Pending.as_str(), "Pending");
    assert_eq!(TaskStatus::Completed.as_str(), "Completed");
    assert_eq!(TaskStatus::Deleted.as_str(), "Deleted");
}

#[test]
fn summary_names_id_title_and_status() {
    let mut task = Task::new(42, String::from("Buy milk"), String::from("2%"));
    assert_eq!(task.summary(), "ID: 42, Title: Buy milk, Status: Pending");
    task.mark_completed();
    assert_eq!(task.summary(), "ID: 42, Title: Buy milk, Status: Completed");
    task.mark_deleted();
    assert_eq!(task.summary(), "ID: 42, Title: Buy milk, Status: Deleted");
}
