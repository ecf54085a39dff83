//! From an input line to an operation on the store: recognizing the command
//! keyword (case-insensitively), parsing positional arguments, and
//! dispatching to the repository operation.

use vstd::prelude::*;

use crate::errors::ResponseError;
use crate::numbers::{parse_u64_str, spec_parse_id};
use crate::store::{
    advance, contains_id, filter_pred, idx_of, max_id, ListOptions, TaskStore,
};
use crate::task::{Task, TaskSpec, TaskStatus};

verus! {

/// The commands the tool understands.
#[derive(Clone, Copy, Debug, PartialEq, Eq, Structural)]
pub enum MenuOptions {
    Add,
    Delete,
    Update,
    MarkDone,
    MarkInProgress,
    List,
    Quit,
}

/// What a dispatched command produced, for the surrounding program to
/// present.
#[derive(Debug)]
pub enum CommandOutcome {
    /// The created task.
    Added(Task),
    Deleted,
    /// Previous and new description.
    Updated(String, String),
    Marked(TaskStatus),
    /// The selected tasks, ascending by id.
    Listing(Vec<Task>),
    Quit,
}

/// Does input character `c` spell keyword character `k`, ignoring case?
/// Keywords are written in lower case; an upper-case input letter matches
/// its lower-case counterpart.
pub open spec fn matches_ci(c: char, k: char) -> bool {
    c == k || ('a' <= k && k <= 'z' && c as u32 + 32 == k as u32)
}

/// Case-insensitive equality of an input word with a keyword.
pub open spec fn ci_eq(s: Seq<char>, kw: Seq<char>) -> bool {
    s.len() == kw.len() && forall|i: int| 0 <= i < s.len() ==> matches_ci(s[i], kw[i])
}

/// The input up to (not including) the first space.
pub open spec fn first_word(s: Seq<char>) -> Seq<char>
    decreases s.len(),
{
    if s.len() == 0 || s[0] == ' ' {
        Seq::empty()
    } else {
        seq![s[0]] + first_word(s.drop_first())
    }
}

/// Which command the first word of the line names, if any.
pub open spec fn spec_command_of(s: Seq<char>) -> Option<MenuOptions> {
    let w = first_word(s);
    if ci_eq(w, "add"@) {
        Some(MenuOptions::Add)
    } else if ci_eq(w, "delete"@) {
        Some(MenuOptions::Delete)
    } else if ci_eq(w, "update"@) {
        Some(MenuOptions::Update)
    } else if ci_eq(w, "mark-done"@) {
        Some(MenuOptions::MarkDone)
    } else if ci_eq(w, "mark-in-progress"@) {
        Some(MenuOptions::MarkInProgress)
    } else if ci_eq(w, "list"@) {
        Some(MenuOptions::List)
    } else if ci_eq(w, "quit"@) {
        Some(MenuOptions::Quit)
    } else if ci_eq(w, "q"@) {
        Some(MenuOptions::Quit)
    } else {
        None
    }
}

proof fn lemma_first_word_take(s: Seq<char>, e: int)
    requires
        0 <= e <= s.len(),
        forall|k: int| 0 <= k < e ==> s[k] != ' ',
        e == s.len() || s[e] == ' ',
    ensures
        first_word(s) == s.take(e),
    decreases e,
{
    if e == 0 {
        assert(s.take(0) =~= Seq::<char>::empty());
    } else {
        assert(s[0] != ' ');
        let d = s.drop_first();
        assert(forall|k: int| 0 <= k < e - 1 ==> d[k] == s[k + 1]);
        lemma_first_word_take(d, e - 1);
        assert(seq![s[0]] + d.take(e - 1) =~= s.take(e));
    }
}

/// Case-insensitive comparison of the first `e` characters of `s` with the
/// keyword `kw`.
fn ci_match_prefix(s: &str, e: usize, kw: &str) -> (b: bool)
    requires
        e <= s@.len(),
    ensures
        b == ci_eq(s@.take(e as int), kw@),
{
    let n = kw.unicode_len();
    if n != e {
        return false;
    }
    let mut k: usize = 0;
    while k < e
        invariant
            0 <= k <= e <= s@.len(),
            e == n == kw@.len(),
            forall|m: int| 0 <= m < k ==> matches_ci(s@.take(e as int)[m], kw@[m]),
        decreases e - k,
    {
        let c = s.get_char(k);
        let l = kw.get_char(k);
        let matched = c == l || ('a' <= l && l <= 'z' && (c as u32) == (l as u32) - 32);
        proof {
            assert(s@.take(e as int)[k as int] == s@[k as int]);
        }
        if !matched {
            proof {
                assert(!matches_ci(s@.take(e as int)[k as int], kw@[k as int]));
            }
            return false;
        }
        k += 1;
    }
    true
}

/// Reads the command keyword off the front of an input line.  An empty line
/// reports `NoArguments`; an unrecognized keyword reports `InvalidInput`.
/// The keyword alone is case-insensitive.
pub fn process_response(res: &String) -> (r: Result<MenuOptions, ResponseError>)
    ensures
        res@.len() == 0 ==> r == Err::<MenuOptions, ResponseError>(ResponseError::NoArguments),
        res@.len() > 0 ==> r == (match spec_command_of(res@) {
            Some(m) => Ok::<MenuOptions, ResponseError>(m),
            None => Err::<MenuOptions, ResponseError>(ResponseError::InvalidInput),
        }),
{
    let s = res.as_str();
    let n = s.unicode_len();
    if n == 0 {
        return Err(ResponseError::NoArguments);
    }
    let mut e: usize = 0;
    while e < n && s.get_char(e) != ' '
        invariant
            0 <= e <= n == s@.len(),
            s@ == res@,
            forall|k: int| 0 <= k < e ==> s@[k] != ' ',
        decreases n - e,
    {
        e += 1;
    }
    proof {
        lemma_first_word_take(res@, e as int);
    }
    if ci_match_prefix(s, e, "add") {
        Ok(MenuOptions::Add)
    } else if ci_match_prefix(s, e, "delete") {
        Ok(MenuOptions::Delete)
    } else if ci_match_prefix(s, e, "update") {
        Ok(MenuOptions::Update)
    } else if ci_match_prefix(s, e, "mark-done") {
        Ok(MenuOptions::MarkDone)
    } else if ci_match_prefix(s, e, "mark-in-progress") {
        Ok(MenuOptions::MarkInProgress)
    } else if ci_match_prefix(s, e, "list") {
        Ok(MenuOptions::List)
    } else if ci_match_prefix(s, e, "quit") {
        Ok(MenuOptions::Quit)
    } else if ci_match_prefix(s, e, "q") {
        Ok(MenuOptions::Quit)
    } else {
        Err(ResponseError::InvalidInput)
    }
}

/// Which filter a listing's argument token names, if any.
pub open spec fn spec_parse_filter(s: Seq<char>) -> Option<ListOptions> {
    if s == "done"@ {
        Some(ListOptions::Done)
    } else if s == "new"@ {
        Some(ListOptions::New)
    } else if s == "in-progress"@ {
        Some(ListOptions::InProgress)
    } else {
        None
    }
}

/// The filter a `list` command line selects: everything when no argument is
/// given, otherwise the named subset.
pub open spec fn spec_list_filter(tokens: Seq<Seq<char>>) -> Option<ListOptions> {
    if tokens.len() <= 1 {
        Some(ListOptions::All)
    } else {
        spec_parse_filter(tokens[1])
    }
}

fn parse_filter(token: &String) -> (r: Option<ListOptions>)
    ensures
        r == spec_parse_filter(token@),
{
    let done = String::from_str("done");
    let new = String::from_str("new");
    let in_progress = String::from_str("in-progress");
    if token.eq(&done) {
        Some(ListOptions::Done)
    } else if token.eq(&new) {
        Some(ListOptions::New)
    } else if token.eq(&in_progress) {
        Some(ListOptions::InProgress)
    } else {
        None
    }
}

/// The tasks selected by a `list` command line, ascending by id for a
/// well-formed store.  An unrecognized filter name reports `InvalidInput`.
pub fn list_tasks(store: &TaskStore, tokens: &Vec<String>) -> (r: Result<Vec<Task>, ResponseError>)
    ensures
        match spec_list_filter(tokens.deep_view()) {
            Some(f) => r matches Ok(v) && v.deep_view() == store@.filter(filter_pred(f)),
            None => r == Err::<Vec<Task>, ResponseError>(ResponseError::InvalidInput),
        },
{
    if tokens.len() <= 1 {
        Ok(store.list(ListOptions::All))
    } else {
        proof {
            assert(tokens.deep_view()[1] == tokens@[1]@);
        }
        match parse_filter(&tokens[1]) {
            Some(f) => Ok(store.list(f)),
            None => Err(ResponseError::InvalidInput),
        }
    }
}

/// Carries a parsed command out against the store.  Mutating commands leave
/// the store well-formed; the caller persists it afterwards.  Missing
/// arguments report `NoArguments`, an id that is not a number reports
/// `ParseError`, and an id no task carries reports `TaskNotFound`; a failed
/// command leaves the store untouched.
pub fn match_response(
    store: &mut TaskStore,
    menu_option: MenuOptions,
    tokens: &Vec<String>,
    now: u64,
) -> (r: Result<CommandOutcome, ResponseError>)
    requires
        old(store).wf(),
        menu_option == MenuOptions::Add ==> max_id(old(store)@) < u64::MAX,
    ensures
        final(store).wf(),
        match menu_option {
            MenuOptions::Add => {
                if tokens@.len() < 2 {
                    r == Err::<CommandOutcome, ResponseError>(ResponseError::NoArguments)
                        && final(store)@ == old(store)@
                } else {
                    &&& r matches Ok(CommandOutcome::Added(t)) && t@ == (TaskSpec {
                        id: (max_id(old(store)@) + 1) as u64,
                        description: tokens.deep_view()[1],
                        status: TaskStatus::New,
                        created_at: now,
                        updated_at: now,
                    }) && final(store)@ == old(store)@.push(t@)
                }
            },
            MenuOptions::Delete => {
                if tokens@.len() < 2 {
                    r == Err::<CommandOutcome, ResponseError>(ResponseError::NoArguments)
                        && final(store)@ == old(store)@
                } else {
                    match spec_parse_id(tokens.deep_view()[1]) {
                        None => r == Err::<CommandOutcome, ResponseError>(
                            ResponseError::ParseError,
                        ) && final(store)@ == old(store)@,
                        Some(id) => {
                            if contains_id(old(store)@, id) {
                                &&& r matches Ok(CommandOutcome::Deleted)
                                &&& final(store)@ == old(store)@.remove(idx_of(old(store)@, id))
                            } else {
                                r == Err::<CommandOutcome, ResponseError>(
                                    ResponseError::TaskNotFound,
                                ) && final(store)@ == old(store)@
                            }
                        },
                    }
                }
            },
            MenuOptions::Update => {
                if tokens@.len() < 3 {
                    r == Err::<CommandOutcome, ResponseError>(ResponseError::NoArguments)
                        && final(store)@ == old(store)@
                } else {
                    match spec_parse_id(tokens.deep_view()[1]) {
                        None => r == Err::<CommandOutcome, ResponseError>(
                            ResponseError::ParseError,
                        ) && final(store)@ == old(store)@,
                        Some(id) => {
                            if contains_id(old(store)@, id) {
                                let i = idx_of(old(store)@, id);
                                &&& r matches Ok(CommandOutcome::Updated(prev, next)) && prev@
                                    == old(store)@[i].description && next@ == tokens.deep_view()[2]
                                &&& final(store)@ == old(store)@.update(
                                    i,
                                    (TaskSpec {
                                        description: tokens.deep_view()[2],
                                        updated_at: advance(old(store)@[i].updated_at, now),
                                        ..old(store)@[i]
                                    }),
                                )
                            } else {
                                r == Err::<CommandOutcome, ResponseError>(
                                    ResponseError::TaskNotFound,
                                ) && final(store)@ == old(store)@
                            }
                        },
                    }
                }
            },
            MenuOptions::MarkDone => spec_marked(
                old(store)@,
                final(store)@,
                tokens.deep_view(),
                now,
                TaskStatus::Done,
                r,
            ),
            MenuOptions::MarkInProgress => spec_marked(
                old(store)@,
                final(store)@,
                tokens.deep_view(),
                now,
                TaskStatus::InProgress,
                r,
            ),
            MenuOptions::List => {
                final(store)@ == old(store)@ && match spec_list_filter(tokens.deep_view()) {
                    Some(f) => r matches Ok(CommandOutcome::Listing(v)) && v.deep_view() == old(
                        store,
                    )@.filter(filter_pred(f)),
                    None => r == Err::<CommandOutcome, ResponseError>(ResponseError::InvalidInput),
                }
            },
            MenuOptions::Quit => r matches Ok(CommandOutcome::Quit) && final(store)@ == old(
                store,
            )@,
        },
{
    match menu_option {
        MenuOptions::Add => {
            if tokens.len() < 2 {
                return Err(ResponseError::NoArguments);
            }
            proof {
                assert(tokens.deep_view()[1] == tokens@[1]@);
            }
            let description = tokens[1].clone();
            let t = store.add_task(description, now);
            Ok(CommandOutcome::Added(t))
        },
        MenuOptions::Delete => {
            if tokens.len() < 2 {
                return Err(ResponseError::NoArguments);
            }
            proof {
                assert(tokens.deep_view()[1] == tokens@[1]@);
            }
            match parse_u64_str(tokens[1].as_str()) {
                None => Err(ResponseError::ParseError),
                Some(id) => match store.delete_task(id) {
                    Ok(_) => Ok(CommandOutcome::Deleted),
                    Err(e) => Err(e),
                },
            }
        },
        MenuOptions::Update => {
            if tokens.len() < 3 {
                return Err(ResponseError::NoArguments);
            }
            proof {
                assert(tokens.deep_view()[1] == tokens@[1]@);
                assert(tokens.deep_view()[2] == tokens@[2]@);
            }
            match parse_u64_str(tokens[1].as_str()) {
                None => Err(ResponseError::ParseError),
                Some(id) => {
                    let next = tokens[2].clone();
                    match store.update_description(id, next, now) {
                        Ok(prev) => Ok(CommandOutcome::Updated(prev, tokens[2].clone())),
                        Err(e) => Err(e),
                    }
                },
            }
        },
        MenuOptions::MarkDone => mark_with(store, tokens, now, TaskStatus::Done),
        MenuOptions::MarkInProgress => mark_with(store, tokens, now, TaskStatus::InProgress),
        MenuOptions::List => match list_tasks(&*store, tokens) {
            Ok(v) => Ok(CommandOutcome::Listing(v)),
            Err(e) => Err(e),
        },
        MenuOptions::Quit => Ok(CommandOutcome::Quit),
    }
}

/// What a `mark-done` or `mark-in-progress` command guarantees.
pub open spec fn spec_marked(
    before: Seq<TaskSpec>,
    after: Seq<TaskSpec>,
    tokens: Seq<Seq<char>>,
    now: u64,
    status: TaskStatus,
    r: Result<CommandOutcome, ResponseError>,
) -> bool {
    if tokens.len() < 2 {
        r == Err::<CommandOutcome, ResponseError>(ResponseError::NoArguments) && after == before
    } else {
        match spec_parse_id(tokens[1]) {
            None => r == Err::<CommandOutcome, ResponseError>(ResponseError::ParseError) && after
                == before,
            Some(id) => {
                if contains_id(before, id) {
                    let i = idx_of(before, id);
                    &&& r matches Ok(CommandOutcome::Marked(st)) && st == status
                    &&& after == before.update(
                        i,
                        (TaskSpec {
                            status,
                            updated_at: advance(before[i].updated_at, now),
                            ..before[i]
                        }),
                    )
                } else {
                    r == Err::<CommandOutcome, ResponseError>(ResponseError::TaskNotFound) && after
                        == before
                }
            },
        }
    }
}

fn mark_with(store: &mut TaskStore, tokens: &Vec<String>, now: u64, status: TaskStatus) -> (r:
    Result<CommandOutcome, ResponseError>)
    requires
        old(store).wf(),
    ensures
        final(store).wf(),
        spec_marked(old(store)@, final(store)@, tokens.deep_view(), now, status, r),
{
    if tokens.len() < 2 {
        return Err(ResponseError::NoArguments);
    }
    proof {
        assert(tokens.deep_view()[1] == tokens@[1]@);
    }
    match parse_u64_str(tokens[1].as_str()) {
        None => Err(ResponseError::ParseError),
        Some(id) => match store.mark_status(id, status, now) {
            Ok(_) => Ok(CommandOutcome::Marked(status)),
            Err(e) => Err(e),
        },
    }
}

} // verus!
