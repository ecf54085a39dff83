use task_tracker::codec::{load, save};
use task_tracker::commands::{match_response, process_response, CommandOutcome, MenuOptions};
use task_tracker::errors::ResponseError;
use task_tracker::store::TaskStore;
use task_tracker::task::TaskStatus;
use task_tracker::tokenizer::true_input_parse;

fn run(store: &mut TaskStore, line: &str, now: u64) -> Result<CommandOutcome, ResponseError> {
    let line = String::from(line);
    let tokens = true_input_parse(&line);
    let option = process_response(&line)?;
    match_response(store, option, &tokens, now)
}

#[test]
fn keyword_recognition() {
    assert_eq!(process_response(&String::from("add x")), Ok(MenuOptions::Add));
    assert_eq!(process_response(&String::from("delete 1")), Ok(MenuOptions::Delete));
    assert_eq!(process_response(&String::from("update 1 x")), Ok(MenuOptions::Update));
    assert_eq!(process_response(&String::from("mark-done 1")), Ok(MenuOptions::MarkDone));
    assert_eq!(
        process_response(&String::from("mark-in-progress 1")),
        Ok(MenuOptions::MarkInProgress)
    );
    assert_eq!(process_response(&String::from("list")), Ok(MenuOptions::List));
    assert_eq!(process_response(&String::from("quit")), Ok(MenuOptions::Quit));
    assert_eq!(process_response(&String::from("q")), Ok(MenuOptions::Quit));
}

#[test]
fn keyword_is_case_insensitive() {
    assert_eq!(process_response(&String::from("ADD x")), Ok(MenuOptions::Add));
    assert_eq!(process_response(&String::from("Mark-Done 1")), Ok(MenuOptions::MarkDone));
    assert_eq!(process_response(&String::from("QUIT")), Ok(MenuOptions::Quit));
}

#[test]
fn unknown_keyword_is_invalid_input() {
    assert_eq!(
        process_response(&String::from("frobnicate 1")),
        Err(ResponseError::InvalidInput)
    );
}

#[test]
fn empty_line_is_no_arguments() {
    assert_eq!(process_response(&String::from("")), Err(ResponseError::NoArguments));
}

#[test]
fn add_to_empty_store_end_to_end() {
    let mut store = TaskStore::empty();
    let outcome = run(&mut store, "add \"write report\"", 100).unwrap();
    match outcome {
        CommandOutcome::Added(t) => {
            assert_eq!(t.id, 1);
            assert_eq!(t.description, String::from("write report"));
            assert_eq!(t.status, TaskStatus::New);
        },
        other => panic!("expected Added, got {:?}", other),
    }
    let doc = save(&store);
    let loaded = load(&doc).unwrap();
    assert_eq!(loaded.tasks.len(), 1);
    assert_eq!(loaded.tasks[0].id, 1);
    assert_eq!(loaded.tasks[0].description, String::from("write report"));
    assert_eq!(loaded.tasks[0].status, TaskStatus::New);
}

#[test]
fn delete_end_to_end() {
    let mut store = TaskStore::empty();
    run(&mut store, "add one", 1).unwrap();
    run(&mut store, "add two", 2).unwrap();
    let outcome = run(&mut store, "delete 1", 3).unwrap();
    assert!(matches!(outcome, CommandOutcome::Deleted));
    assert_eq!(store.tasks.len(), 1);
    assert_eq!(store.tasks[0].id, 2);
}

#[test]
fn mark_in_progress_end_to_end() {
    let mut store = TaskStore::empty();
    run(&mut store, "add one", 50).unwrap();
    let outcome = run(&mut store, "mark-in-progress 1", 80).unwrap();
    assert!(matches!(outcome, CommandOutcome::Marked(TaskStatus::InProgress)));
    assert_eq!(store.tasks[0].status, TaskStatus::InProgress);
    assert_eq!(store.tasks[0].created_at, 50);
    assert_eq!(store.tasks[0].updated_at, 80);
}

#[test]
fn mark_done_end_to_end() {
    let mut store = TaskStore::empty();
    run(&mut store, "add one", 1).unwrap();
    let outcome = run(&mut store, "mark-done 1", 9).unwrap();
    assert!(matches!(outcome, CommandOutcome::Marked(TaskStatus::Done)));
    assert_eq!(store.tasks[0].status, TaskStatus::Done);
}

#[test]
fn update_description_end_to_end() {
    let mut store = TaskStore::empty();
    run(&mut store, "add \"old text\"", 1).unwrap();
    let outcome = run(&mut store, "update 1 \"new text\"", 2).unwrap();
    match outcome {
        CommandOutcome::Updated(prev, next) => {
            assert_eq!(prev, String::from("old text"));
            assert_eq!(next, String::from("new text"));
        },
        other => panic!("expected Updated, got {:?}", other),
    }
    assert_eq!(store.tasks[0].description, String::from("new text"));
}

#[test]
fn list_with_filter_end_to_end() {
    let mut store = TaskStore::empty();
    run(&mut store, "add one", 1).unwrap();
    run(&mut store, "add two", 2).unwrap();
    run(&mut store, "mark-done 2", 3).unwrap();
    let outcome = run(&mut store, "list done", 4).unwrap();
    match outcome {
        CommandOutcome::Listing(v) => {
            assert_eq!(v.len(), 1);
            assert_eq!(v[0].id, 2);
        },
        other => panic!("expected Listing, got {:?}", other),
    }
    let outcome = run(&mut store, "list", 5).unwrap();
    match outcome {
        CommandOutcome::Listing(v) => {
            let ids: Vec<u64> = v.iter().map(|t| t.id).collect();
            assert_eq!(ids, vec![1, 2]);
        },
        other => panic!("expected Listing, got {:?}", other),
    }
}

#[test]
fn unknown_filter_is_invalid_input() {
    let mut store = TaskStore::empty();
    assert_eq!(run(&mut store, "list everything", 1).unwrap_err(), ResponseError::InvalidInput);
}

#[test]
fn missing_argument_is_no_arguments() {
    let mut store = TaskStore::empty();
    assert_eq!(run(&mut store, "add", 1).unwrap_err(), ResponseError::NoArguments);
    assert_eq!(run(&mut store, "delete", 1).unwrap_err(), ResponseError::NoArguments);
    assert_eq!(run(&mut store, "update 1", 1).unwrap_err(), ResponseError::NoArguments);
}

#[test]
fn non_numeric_id_is_parse_error() {
    let mut store = TaskStore::empty();
    run(&mut store, "add one", 1).unwrap();
    assert_eq!(run(&mut store, "delete abc", 2).unwrap_err(), ResponseError::ParseError);
    assert_eq!(run(&mut store, "mark-done 1x", 2).unwrap_err(), ResponseError::ParseError);
    assert_eq!(
        run(&mut store, "delete 99999999999999999999", 2).unwrap_err(),
        ResponseError::ParseError
    );
    assert_eq!(store.tasks.len(), 1);
}

#[test]
fn absent_id_is_task_not_found() {
    let mut store = TaskStore::empty();
    run(&mut store, "add one", 1).unwrap();
    assert_eq!(run(&mut store, "delete 7", 2).unwrap_err(), ResponseError::TaskNotFound);
    assert_eq!(run(&mut store, "mark-done 7", 2).unwrap_err(), ResponseError::TaskNotFound);
    assert_eq!(run(&mut store, "update 7 x", 2).unwrap_err(), ResponseError::TaskNotFound);
}

#[test]
fn quit_reports_quit_outcome() {
    let mut store = TaskStore::empty();
    let outcome = run(&mut store, "quit", 1).unwrap();
    assert!(matches!(outcome, CommandOutcome::Quit));
    let outcome = run(&mut store, "q", 1).unwrap();
    assert!(matches!(outcome, CommandOutcome::Quit));
}

#[test]
fn largest_numeric_id_parses() {
    let mut store = TaskStore::empty();
    run(&mut store, "add one", 1).unwrap();
    assert_eq!(
        run(&mut store, "delete 18446744073709551615", 2).unwrap_err(),
        ResponseError::TaskNotFound
    );
}
