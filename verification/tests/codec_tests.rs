use task_tracker::codec::{load, save};
use task_tracker::errors::ResponseError;
use task_tracker::store::TaskStore;
use task_tracker::task::TaskStatus;

fn doc_of(text: &str) -> Vec<char> {
    text.chars().collect()
}

fn assert_stores_equal(a: &TaskStore, b: &TaskStore) {
    assert_eq!(a.tasks.len(), b.tasks.len());
    for (x, y) in a.tasks.iter().zip(b.tasks.iter()) {
        assert_eq!(x.id, y.id);
        assert_eq!(x.description, y.description);
        assert_eq!(x.status, y.status);
        assert_eq!(x.created_at, y.created_at);
        assert_eq!(x.updated_at, y.updated_at);
    }
}

#[test]
fn empty_store_round_trips() {
    let store = TaskStore::empty();
    let doc = save(&store);
    let loaded = load(&doc).unwrap();
    assert_stores_equal(&store, &loaded);
}

#[test]
fn populated_store_round_trips() {
    let mut store = TaskStore::empty();
    store.add_task(String::from("write report"), 100);
    store.add_task(String::from("two words here"), 200);
    store.add_task(String::from(""), 300);
    store.mark_status(2, TaskStatus::Done, 250).unwrap();
    store.mark_status(3, TaskStatus::InProgress, 350).unwrap();
    let doc = save(&store);
    let loaded = load(&doc).unwrap();
    assert_stores_equal(&store, &loaded);
}

#[test]
fn descriptions_with_quotes_and_backslashes_round_trip() {
    let mut store = TaskStore::empty();
    store.add_task(String::from("say \"hi\" to \\everyone\\"), 7);
    store.add_task(String::from("\\\"tricky\"\\"), 8);
    let doc = save(&store);
    let loaded = load(&doc).unwrap();
    assert_stores_equal(&store, &loaded);
}

#[test]
fn saved_document_has_canonical_shape() {
    let mut store = TaskStore::empty();
    store.add_task(String::from("write report"), 100);
    let doc: String = save(&store).into_iter().collect();
    assert_eq!(
        doc,
        "{\"tasks\":{\"1\":{\"id\":1,\"description\":\"write report\",\"status\":\"New\",\
         \"created_at\":100,\"updated_at\":100}}}"
    );
}

#[test]
fn saved_empty_store_is_bare_object() {
    let store = TaskStore::empty();
    let doc: String = save(&store).into_iter().collect();
    assert_eq!(doc, "{\"tasks\":{}}");
}

#[test]
fn escaped_description_is_written_with_escapes() {
    let mut store = TaskStore::empty();
    store.add_task(String::from("a\"b\\c"), 1);
    let doc: String = save(&store).into_iter().collect();
    assert!(doc.contains("\"description\":\"a\\\"b\\\\c\""));
}

#[test]
fn empty_document_is_a_parse_error() {
    assert_eq!(load(&doc_of("")).unwrap_err(), ResponseError::ParseError);
}

#[test]
fn garbage_document_is_a_parse_error() {
    assert_eq!(load(&doc_of("hello world")).unwrap_err(), ResponseError::ParseError);
}

#[test]
fn truncated_document_is_a_parse_error() {
    let mut store = TaskStore::empty();
    store.add_task(String::from("write report"), 100);
    let mut doc = save(&store);
    doc.truncate(doc.len() - 2);
    assert_eq!(load(&doc).unwrap_err(), ResponseError::ParseError);
}

#[test]
fn trailing_noise_is_a_parse_error() {
    let doc = doc_of("{\"tasks\":{}}x");
    assert_eq!(load(&doc).unwrap_err(), ResponseError::ParseError);
}

#[test]
fn key_and_id_must_agree() {
    let doc = doc_of(
        "{\"tasks\":{\"2\":{\"id\":1,\"description\":\"a\",\"status\":\"New\",\
         \"created_at\":1,\"updated_at\":1}}}",
    );
    assert_eq!(load(&doc).unwrap_err(), ResponseError::ParseError);
}

#[test]
fn entries_out_of_order_are_rejected() {
    let doc = doc_of(
        "{\"tasks\":{\"2\":{\"id\":2,\"description\":\"b\",\"status\":\"New\",\
         \"created_at\":1,\"updated_at\":1},\"1\":{\"id\":1,\"description\":\"a\",\
         \"status\":\"New\",\"created_at\":1,\"updated_at\":1}}}",
    );
    assert_eq!(load(&doc).unwrap_err(), ResponseError::ParseError);
}

#[test]
fn zero_id_is_rejected() {
    let doc = doc_of(
        "{\"tasks\":{\"0\":{\"id\":0,\"description\":\"a\",\"status\":\"New\",\
         \"created_at\":1,\"updated_at\":1}}}",
    );
    assert_eq!(load(&doc).unwrap_err(), ResponseError::ParseError);
}

#[test]
fn timestamps_out_of_order_are_rejected() {
    let doc = doc_of(
        "{\"tasks\":{\"1\":{\"id\":1,\"description\":\"a\",\"status\":\"New\",\
         \"created_at\":9,\"updated_at\":3}}}",
    );
    assert_eq!(load(&doc).unwrap_err(), ResponseError::ParseError);
}

#[test]
fn unknown_status_name_is_rejected() {
    let doc = doc_of(
        "{\"tasks\":{\"1\":{\"id\":1,\"description\":\"a\",\"status\":\"Later\",\
         \"created_at\":1,\"updated_at\":1}}}",
    );
    assert_eq!(load(&doc).unwrap_err(), ResponseError::ParseError);
}

#[test]
fn hand_written_canonical_document_loads() {
    let doc = doc_of(
        "{\"tasks\":{\"4\":{\"id\":4,\"description\":\"one \\\"two\\\"\",\"status\":\
         \"InProgress\",\"created_at\":11,\"updated_at\":12},\"9\":{\"id\":9,\
         \"description\":\"done thing\",\"status\":\"Done\",\"created_at\":2,\
         \"updated_at\":20}}}",
    );
    let store = load(&doc).unwrap();
    assert_eq!(store.tasks.len(), 2);
    assert_eq!(store.tasks[0].id, 4);
    assert_eq!(store.tasks[0].description, String::from("one \"two\""));
    assert_eq!(store.tasks[0].status, TaskStatus::InProgress);
    assert_eq!(store.tasks[0].created_at, 11);
    assert_eq!(store.tasks[0].updated_at, 12);
    assert_eq!(store.tasks[1].id, 9);
    assert_eq!(store.tasks[1].status, TaskStatus::Done);
}

#[test]
fn huge_timestamp_round_trips() {
    let mut store = TaskStore::empty();
    store.add_task(String::from("late"), u64::MAX);
    let doc = save(&store);
    let loaded = load(&doc).unwrap();
    assert_eq!(loaded.tasks[0].created_at, u64::MAX);
}

#[test]
fn overflowing_number_is_a_parse_error() {
    let doc = doc_of(
        "{\"tasks\":{\"1\":{\"id\":1,\"description\":\"a\",\"status\":\"New\",\
         \"created_at\":99999999999999999999,\"updated_at\":99999999999999999999}}}",
    );
    assert_eq!(load(&doc).unwrap_err(), ResponseError::ParseError);
}
