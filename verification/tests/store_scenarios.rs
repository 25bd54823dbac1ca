use task_manager::store::{StoreError, TaskManager};
use task_manager::task::TaskStatus;

fn fresh() -> TaskManager {
    TaskManager::new(String::from("tasks.txt"))
}

#[test]
fn create_on_empty_store_gives_id_one_and_one_line() {
    let mut store = fresh();
    let id = store.add_task(String::from("Buy milk"), String::from("2%"));
    assert_eq!(id, 1);
    assert_eq!(store.save_to_string(), "1|Buy milk|2%|Pending\n");
    assert_eq!(store.next_id(), 2);
}

#[test]
fn load_skips_malformed_line_and_keeps_valid_one() {
    let mut store = fresh();
    store.load_from_str("2|Bad|Row\n3|Ok|Desc|Pending\n");
    let all = store.list_tasks();
    assert_eq!(all.len(), 1);
    assert_eq!(all[0].id(), 3);
    assert_eq!(all[0].title(), "Ok");
    assert_eq!(all[0].description(), "Desc");
    assert_eq!(all[0].status(), TaskStatus::Pending);
    assert_eq!(store.next_id(), 4);
}

#[test]
fn mark_completed_of_missing_id_reports_not_found_and_changes_nothing() {
    let mut store = fresh();
    store.add_task(String::from("a"), String::from("b"));
    let before = store.save_to_string();
    assert_eq!(store.mark_completed(99), Err(StoreError::NotFound { id: 99 }));
    assert_eq!(store.save_to_string(), before);
    assert_eq!(store.next_id(), 2);
}

#[test]
fn hard_deleted_id_is_not_reused() {
    let mut store = fresh();
    assert_eq!(store.add_task(String::from("one"), String::new()), 1);
    assert_eq!(store.add_task(String::from("two"), String::new()), 2);
    assert_eq!(store.delete_task(1), Ok(()));
    assert_eq!(store.add_task(String::from("three"), String::new()), 3);
    let ids: Vec<u32> = store.list_tasks().iter().map(|t| t.id()).collect();
    assert_eq!(ids, vec![2, 3]);
}
