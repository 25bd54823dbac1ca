use task_manager::model::ID_LIMIT;
use task_manager::store::{StoreError, TaskManager};
use task_manager::task::TaskStatus;

fn store_with(n: u32) -> TaskManager {
    let mut store = TaskManager::new(String::from("tasks.txt"));
    for i in 0..n {
        store.add_task(format!("title {}", i + 1), format!("description {}", i + 1));
    }
    store
}

fn ids(store: &TaskManager) -> Vec<u32> {
    store.list_tasks().iter().map(|t| t.id()).collect()
}

fn status_of(store: &TaskManager, id: u32) -> Option<TaskStatus> {
    store.list_tasks().iter().find(|t| t.id() == id).map(|t| t.status())
}

#[test]
fn add_task_hands_out_consecutive_ids() {
    let mut store = TaskManager::new(String::from("f"));
    assert_eq!(store.add_task(String::from("a"), String::new()), 1);
    assert_eq!(store.add_task(String::from("b"), String::new()), 2);
    assert_eq!(store.add_task(String::from("c"), String::new()), 3);
    assert_eq!(store.next_id(), 4);
    assert_eq!(ids(&store), vec![1, 2, 3]);
}

#[test]
fn add_task_continues_after_loaded_ids() {
    let mut store = TaskManager::new(String::from("f"));
    store.load_from_str("41|a|b|Pending\n");
    assert_eq!(store.add_task(String::from("n"), String::from("m")), 42);
    assert_eq!(store.next_id(), 43);
}

#[test]
fn add_task_can_use_the_largest_id() {
    let mut store = TaskManager::new(String::from("f"));
    store.load_from_str("4294967294|a|b|Pending\n");
    assert_eq!(store.next_id(), 4294967295);
    assert!(store.next_id() < ID_LIMIT);
    assert_eq!(store.add_task(String::from("n"), String::from("m")), 4294967295);
    assert_eq!(store.next_id(), ID_LIMIT);
    assert_eq!(ids(&store), vec![4294967294, 4294967295]);
}

#[test]
fn list_tasks_includes_tasks_marked_deleted() {
    let mut store = store_with(3);
    assert_eq!(store.mark_deleted(2), Ok(()));
    assert_eq!(ids(&store), vec![1, 2, 3]);
    assert_eq!(status_of(&store, 2), Some(TaskStatus::Deleted));
}

#[test]
fn mark_completed_changes_only_that_task() {
    let mut store = store_with(3);
    assert_eq!(store.mark_completed(2), Ok(()));
    assert_eq!(status_of(&store, 1), Some(TaskStatus::Pending));
    assert_eq!(status_of(&store, 2), Some(TaskStatus::Completed));
    assert_eq!(status_of(&store, 3), Some(TaskStatus::Pending));
    assert_eq!(
        store.save_to_string(),
        "1|title 1|description 1|Pending\n2|title 2|description 2|Completed\n3|title 3|description 3|Pending\n"
    );
}

#[test]
fn marking_completed_again_changes_nothing() {
    let mut store = store_with(2);
    assert_eq!(store.mark_completed(1), Ok(()));
    let once = store.save_to_string();
    assert_eq!(store.mark_completed(1), Ok(()));
    assert_eq!(store.save_to_string(), once);
    assert_eq!(store.next_id(), 3);
}

#[test]
fn marking_deleted_again_changes_nothing() {
    let mut store = store_with(2);
    assert_eq!(store.mark_deleted(2), Ok(()));
    let once = store.save_to_string();
    assert_eq!(store.mark_deleted(2), Ok(()));
    assert_eq!(store.save_to_string(), once);
}

#[test]
fn completed_and_deleted_overwrite_each_other() {
    let mut store = store_with(1);
    assert_eq!(store.mark_completed(1), Ok(()));
    assert_eq!(store.mark_deleted(1), Ok(()));
    assert_eq!(status_of(&store, 1), Some(TaskStatus::Deleted));
    assert_eq!(store.mark_completed(1), Ok(()));
    assert_eq!(status_of(&store, 1), Some(TaskStatus::Completed));
}

#[test]
fn mark_deleted_of_missing_id_reports_not_found() {
    let mut store = store_with(2);
    let before = store.save_to_string();
    assert_eq!(store.mark_deleted(3), Err(StoreError::NotFound { id: 3 }));
    assert_eq!(store.mark_deleted(0), Err(StoreError::NotFound { id: 0 }));
    assert_eq!(store.save_to_string(), before);
}

#[test]
fn delete_task_of_missing_id_reports_not_found_and_changes_nothing() {
    let mut store = store_with(2);
    let before = store.save_to_string();
    assert_eq!(store.delete_task(7), Err(StoreError::NotFound { id: 7 }));
    assert_eq!(store.save_to_string(), before);
    assert_eq!(store.next_id(), 3);
}

#[test]
fn delete_task_removes_the_task_and_keeps_next_id() {
    let mut store = store_with(3);
    assert_eq!(store.delete_task(2), Ok(()));
    assert_eq!(ids(&store), vec![1, 3]);
    assert_eq!(store.next_id(), 4);
    assert_eq!(store.delete_task(2), Err(StoreError::NotFound { id: 2 }));
    assert_eq!(store.mark_completed(2), Err(StoreError::NotFound { id: 2 }));
}

#[test]
fn deleted_id_never_comes_back() {
    let mut store = store_with(3);
    assert_eq!(store.delete_task(3), Ok(()));
    assert_eq!(store.delete_task(1), Ok(()));
    for expected in 4..20u32 {
        assert_eq!(store.add_task(String::from("t"), String::from("d")), expected);
        assert!(!ids(&store).contains(&1));
        assert!(!ids(&store).contains(&3));
    }
}

#[test]
fn next_id_exceeds_every_id_after_mixed_operations() {
    let mut store = TaskManager::new(String::from("f"));
    store.load_from_str("10|a|b|Pending\n4|c|d|Deleted\n");
    let mut issued: Vec<u32> = Vec::new();
    issued.push(store.add_task(String::from("x"), String::from("y")));
    assert_eq!(store.delete_task(10), Ok(()));
    issued.push(store.add_task(String::from("x"), String::from("y")));
    assert_eq!(store.mark_completed(4), Ok(()));
    assert_eq!(store.delete_task(12), Ok(()));
    issued.push(store.add_task(String::from("x"), String::from("y")));
    assert_eq!(issued, vec![11, 12, 13]);
    assert_eq!(store.next_id(), 14);
    for id in ids(&store) {
        assert!((id as u64) < store.next_id());
    }
    for id in issued {
        assert!((id as u64) < store.next_id());
    }
}

#[test]
fn not_found_message_names_the_id() {
    assert_eq!(StoreError::NotFound { id: 99 }.message(), "Task with ID 99 not found.");
    assert_eq!(StoreError::NotFound { id: 0 }.message(), "Task with ID 0 not found.");
}
