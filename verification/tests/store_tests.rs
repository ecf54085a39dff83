use task_tracker::errors::ResponseError;
use task_tracker::store::{
    create_new_id, filtered_vector_to_sorted_vec, task_hash_to_filtered_vector, ListOptions,
    TaskStore,
};
use task_tracker::task::{Task, TaskStatus};

#[test]
fn add_on_empty_store_assigns_id_one() {
    let mut store = TaskStore::empty();
    let t = store.add_task(String::from("first"), 10);
    assert_eq!(t.id, 1);
    assert_eq!(t.description, String::from("first"));
    assert!(matches!(t.status, TaskStatus::New));
    assert_eq!(t.created_at, 10);
    assert_eq!(t.updated_at, 10);
    assert_eq!(store.tasks.len(), 1);
}

#[test]
fn add_assigns_max_plus_one() {
    let mut store = TaskStore::empty();
    store.add_task(String::from("a"), 1);
    store.add_task(String::from("b"), 2);
    let t = store.add_task(String::from("c"), 3);
    assert_eq!(t.id, 3);
    assert_eq!(create_new_id(&store), 4);
}

#[test]
fn deleting_highest_id_reuses_it() {
    let mut store = TaskStore::empty();
    store.add_task(String::from("a"), 1);
    store.add_task(String::from("b"), 2);
    store.delete_task(2).unwrap();
    let t = store.add_task(String::from("c"), 3);
    assert_eq!(t.id, 2);
}

#[test]
fn delete_removes_exactly_one_entry() {
    let mut store = TaskStore::empty();
    store.add_task(String::from("a"), 1);
    store.add_task(String::from("b"), 2);
    store.add_task(String::from("c"), 3);
    assert!(store.delete_task(2).is_ok());
    assert_eq!(store.tasks.len(), 2);
    assert_eq!(store.tasks[0].id, 1);
    assert_eq!(store.tasks[0].description, String::from("a"));
    assert_eq!(store.tasks[0].created_at, 1);
    assert_eq!(store.tasks[1].id, 3);
    assert_eq!(store.tasks[1].description, String::from("c"));
    assert_eq!(store.tasks[1].created_at, 3);
}

#[test]
fn delete_absent_id_reports_task_not_found() {
    let mut store = TaskStore::empty();
    store.add_task(String::from("a"), 1);
    let r = store.delete_task(9);
    assert_eq!(r, Err(ResponseError::TaskNotFound));
    assert_eq!(store.tasks.len(), 1);
    assert_eq!(store.tasks[0].id, 1);
}

#[test]
fn mark_status_keeps_id_and_created_at() {
    let mut store = TaskStore::empty();
    store.add_task(String::from("a"), 50);
    assert!(store.mark_status(1, TaskStatus::Done, 80).is_ok());
    let t = &store.tasks[0];
    assert_eq!(t.id, 1);
    assert_eq!(t.created_at, 50);
    assert_eq!(t.updated_at, 80);
    assert!(matches!(t.status, TaskStatus::Done));
    assert_eq!(t.description, String::from("a"));
}

#[test]
fn mark_status_never_moves_updated_at_backward() {
    let mut store = TaskStore::empty();
    store.add_task(String::from("a"), 50);
    assert!(store.mark_status(1, TaskStatus::Done, 30).is_ok());
    let t = &store.tasks[0];
    assert_eq!(t.updated_at, 50);
    assert!(t.updated_at >= t.created_at);
}

#[test]
fn mark_status_absent_id_reports_task_not_found() {
    let mut store = TaskStore::empty();
    let r = store.mark_status(1, TaskStatus::Done, 5);
    assert_eq!(r, Err(ResponseError::TaskNotFound));
}

#[test]
fn update_description_returns_previous_text() {
    let mut store = TaskStore::empty();
    store.add_task(String::from("old words"), 10);
    let prev = store.update_description(1, String::from("new words"), 20).unwrap();
    assert_eq!(prev, String::from("old words"));
    let t = &store.tasks[0];
    assert_eq!(t.description, String::from("new words"));
    assert_eq!(t.id, 1);
    assert_eq!(t.created_at, 10);
    assert_eq!(t.updated_at, 20);
    assert!(matches!(t.status, TaskStatus::New));
}

#[test]
fn update_description_absent_id_reports_task_not_found() {
    let mut store = TaskStore::empty();
    let r = store.update_description(3, String::from("x"), 1);
    assert_eq!(r, Err(ResponseError::TaskNotFound));
}

fn mixed_store() -> TaskStore {
    let mut store = TaskStore::empty();
    store.add_task(String::from("one"), 1);
    store.add_task(String::from("two"), 2);
    store.add_task(String::from("three"), 3);
    store.add_task(String::from("four"), 4);
    store.mark_status(2, TaskStatus::Done, 5).unwrap();
    store.mark_status(3, TaskStatus::InProgress, 6).unwrap();
    store.mark_status(4, TaskStatus::Done, 7).unwrap();
    store
}

#[test]
fn list_all_returns_every_task_ascending() {
    let store = mixed_store();
    let all = store.list(ListOptions::All);
    let ids: Vec<u64> = all.iter().map(|t| t.id).collect();
    assert_eq!(ids, vec![1, 2, 3, 4]);
}

#[test]
fn list_filters_select_exact_subsets() {
    let store = mixed_store();
    let done: Vec<u64> = store.list(ListOptions::Done).iter().map(|t| t.id).collect();
    let new: Vec<u64> = store.list(ListOptions::New).iter().map(|t| t.id).collect();
    let in_progress: Vec<u64> =
        store.list(ListOptions::InProgress).iter().map(|t| t.id).collect();
    assert_eq!(done, vec![2, 4]);
    assert_eq!(new, vec![1]);
    assert_eq!(in_progress, vec![3]);
    assert_eq!(done.len() + new.len() + in_progress.len(), store.tasks.len());
}

#[test]
fn sort_orders_tasks_by_id() {
    let unsorted = vec![
        Task::new(3, String::from("c"), TaskStatus::New, 3, 3),
        Task::new(1, String::from("a"), TaskStatus::Done, 1, 1),
        Task::new(2, String::from("b"), TaskStatus::InProgress, 2, 2),
    ];
    let sorted = filtered_vector_to_sorted_vec(unsorted);
    let ids: Vec<u64> = sorted.iter().map(|t| t.id).collect();
    assert_eq!(ids, vec![1, 2, 3]);
    assert_eq!(sorted[0].description, String::from("a"));
}

#[test]
fn store_to_vector_is_ascending() {
    let store = mixed_store();
    let v = task_hash_to_filtered_vector(&store);
    let ids: Vec<u64> = v.iter().map(|t| t.id).collect();
    assert_eq!(ids, vec![1, 2, 3, 4]);
}
