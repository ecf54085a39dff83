//! The in-memory task store and its operations: id assignment, insertion,
//! deletion, description edits, status changes, and filtered, id-ordered
//! listing.
//!
//! A store holds its tasks in strictly ascending id order; that order is the
//! store's well-formedness invariant, so ids are unique and a full listing
//! needs no further sorting.

use vstd::prelude::*;

use crate::errors::ResponseError;
use crate::task::{Task, TaskSpec, TaskStatus};

verus! {

/// Ids strictly increase along the sequence (hence they are unique).
pub open spec fn ids_ascending(s: Seq<TaskSpec>) -> bool {
    forall|i: int, j: int| 0 <= i < j < s.len() ==> s[i].id < s[j].id
}

/// Every task has a positive id and timestamps in creation order.
pub open spec fn tasks_valid(s: Seq<TaskSpec>) -> bool {
    forall|i: int| 0 <= i < s.len() ==> 1 <= #[trigger] s[i].id && s[i].created_at
        <= s[i].updated_at
}

/// Well-formedness of a store's contents.
pub open spec fn store_wf(s: Seq<TaskSpec>) -> bool {
    ids_ascending(s) && tasks_valid(s)
}

/// Does some task in `s` carry `id`?
pub open spec fn contains_id(s: Seq<TaskSpec>, id: u64) -> bool {
    exists|i: int| 0 <= i < s.len() && s[i].id == id
}

/// Position of the task carrying `id` (meaningful when `contains_id`).
pub open spec fn idx_of(s: Seq<TaskSpec>, id: u64) -> int {
    choose|i: int| 0 <= i < s.len() && s[i].id == id
}

/// Largest id present, or `0` for an empty store.
pub open spec fn max_id(s: Seq<TaskSpec>) -> u64
    decreases s.len(),
{
    if s.len() == 0 {
        0
    } else {
        let m = max_id(s.drop_last());
        if s.last().id > m {
            s.last().id
        } else {
            m
        }
    }
}

pub proof fn lemma_max_id_is_bound(s: Seq<TaskSpec>)
    ensures
        forall|i: int| 0 <= i < s.len() ==> #[trigger] s[i].id <= max_id(s),
    decreases s.len(),
{
    if s.len() > 0 {
        lemma_max_id_is_bound(s.drop_last());
        assert(forall|i: int| 0 <= i < s.len() - 1 ==> s[i] == s.drop_last()[i]);
    }
}

/// In an ascending store the id of a task determines its position.
pub proof fn lemma_idx_of_unique(s: Seq<TaskSpec>, i: int, id: u64)
    requires
        ids_ascending(s),
        0 <= i < s.len(),
        s[i].id == id,
    ensures
        contains_id(s, id),
        idx_of(s, id) == i,
{
    assert(contains_id(s, id));
    let k = idx_of(s, id);
    if k < i {
        assert(s[k].id < s[i].id);
    } else if k > i {
        assert(s[i].id < s[k].id);
    }
}

/// The full persisted state: tasks in strictly ascending id order.
#[derive(Debug)]
pub struct TaskStore {
    pub tasks: Vec<Task>,
}

impl View for TaskStore {
    type V = Seq<TaskSpec>;

    open spec fn view(&self) -> Seq<TaskSpec> {
        self.tasks.deep_view()
    }
}

impl TaskStore {
    pub open spec fn wf(&self) -> bool {
        store_wf(self@)
    }

    /// A store with no tasks.
    pub fn empty() -> (s: Self)
        ensures
            s@ =~= Seq::<TaskSpec>::empty(),
            s.wf(),
    {
        let s = TaskStore { tasks: Vec::new() };
        proof {
            assert(s@ =~= Seq::<TaskSpec>::empty());
        }
        s
    }

    /// Position of the task carrying `id`, if any.
    fn find_index(&self, id: u64) -> (r: Option<usize>)
        ensures
            r matches Some(i) ==> i < self@.len() && self@[i as int].id == id,
            r is None ==> !contains_id(self@, id),
    {
        let mut i: usize = 0;
        while i < self.tasks.len()
            invariant
                0 <= i <= self@.len() == self.tasks@.len(),
                forall|k: int| 0 <= k < i ==> #[trigger] self@[k].id != id,
            decreases self@.len() - i,
        {
            if self.tasks[i].id == id {
                return Some(i);
            }
            i += 1;
        }
        None
    }

    /// Creates a task from `description`, stamps it with `now`, assigns it
    /// the next id, and appends it to the store.  The created task is
    /// returned; an equal task now stands in the store.
    pub fn add_task(&mut self, description: String, now: u64) -> (t: Task)
        requires
            old(self).wf(),
            max_id(old(self)@) < u64::MAX,
        ensures
            final(self).wf(),
            t@ == (TaskSpec {
                id: (max_id(old(self)@) + 1) as u64,
                description: description@,
                status: TaskStatus::New,
                created_at: now,
                updated_at: now,
            }),
            final(self)@ == old(self)@.push(t@),
    {
        let id = create_new_id(&*self);
        let t = Task::new(id, description, TaskStatus::New, now, now);
        let copy = t.clone();
        self.tasks.push(copy);
        proof {
            assert(self@ =~= old(self)@.push(t@));
            lemma_max_id_is_bound(old(self)@);
            assert(forall|i: int| 0 <= i < old(self)@.len() ==> #[trigger] old(self)@[i].id
                < t@.id);
            assert(ids_ascending(self@));
            assert(tasks_valid(self@));
        }
        t
    }

    /// Removes the task carrying `id`; every other task is untouched.
    /// Reports `TaskNotFound`, and changes nothing, when no task carries
    /// `id`.
    pub fn delete_task(&mut self, id: u64) -> (r: Result<(), ResponseError>)
        requires
            old(self).wf(),
        ensures
            final(self).wf(),
            contains_id(old(self)@, id) ==> r is Ok && final(self)@ == old(self)@.remove(
                idx_of(old(self)@, id),
            ),
            !contains_id(old(self)@, id) ==> r == Err::<(), ResponseError>(
                ResponseError::TaskNotFound,
            ) && final(self)@ == old(self)@,
    {
        match self.find_index(id) {
            None => Err(ResponseError::TaskNotFound),
            Some(i) => {
                self.tasks.remove(i);
                proof {
                    lemma_idx_of_unique(old(self)@, i as int, id);
                    assert(self@ =~= old(self)@.remove(i as int));
                    let s = old(self)@.remove(i as int);
                    assert(forall|k: int| 0 <= k < s.len() ==> s[k] == if k < i {
                        old(self)@[k]
                    } else {
                        old(self)@[k + 1]
                    });
                    assert(ids_ascending(s));
                    assert(tasks_valid(s));
                }
                Ok(())
            },
        }
    }

    /// Replaces the description of the task carrying `id` and moves its
    /// `updated_at` stamp forward to `now` (never backward); `id`, `status`
    /// and `created_at` are untouched, as is every other task.  Returns the
    /// previous description.  Reports `TaskNotFound`, and changes nothing,
    /// when no task carries `id`.
    pub fn update_description(&mut self, id: u64, description: String, now: u64) -> (r: Result<
        String,
        ResponseError,
    >)
        requires
            old(self).wf(),
        ensures
            final(self).wf(),
            contains_id(old(self)@, id) ==> ({
                let i = idx_of(old(self)@, id);
                &&& r is Ok
                &&& r->Ok_0@ == old(self)@[i].description
                &&& final(self)@ == old(self)@.update(
                    i,
                    (TaskSpec {
                        description: description@,
                        updated_at: advance(old(self)@[i].updated_at, now),
                        ..old(self)@[i]
                    }),
                )
            }),
            !contains_id(old(self)@, id) ==> r == Err::<String, ResponseError>(
                ResponseError::TaskNotFound,
            ) && final(self)@ == old(self)@,
    {
        match self.find_index(id) {
            None => Err(ResponseError::TaskNotFound),
            Some(i) => {
                let old_task = &self.tasks[i];
                let previous = old_task.description.clone();
                let stamp = if now >= old_task.updated_at {
                    now
                } else {
                    old_task.updated_at
                };
                let replacement = Task::new(
                    old_task.id,
                    description,
                    old_task.status,
                    old_task.created_at,
                    stamp,
                );
                self.tasks[i] = replacement;
                proof {
                    lemma_idx_of_unique(old(self)@, i as int, id);
                    assert(self@ =~= old(self)@.update(i as int, replacement@));
                    let s = self@;
                    assert(forall|k: int| 0 <= k < s.len() && k != i ==> s[k] == old(self)@[k]);
                    assert(ids_ascending(s));
                    assert(tasks_valid(s));
                }
                Ok(previous)
            },
        }
    }

    /// Sets the status of the task carrying `id` and moves its `updated_at`
    /// stamp forward to `now` (never backward); `id`, `description` and
    /// `created_at` are untouched, as is every other task.  Reports
    /// `TaskNotFound`, and changes nothing, when no task carries `id`.
    pub fn mark_status(&mut self, id: u64, status: TaskStatus, now: u64) -> (r: Result<
        (),
        ResponseError,
    >)
        requires
            old(self).wf(),
        ensures
            final(self).wf(),
            contains_id(old(self)@, id) ==> ({
                let i = idx_of(old(self)@, id);
                &&& r is Ok
                &&& final(self)@ == old(self)@.update(
                    i,
                    (TaskSpec {
                        status,
                        updated_at: advance(old(self)@[i].updated_at, now),
                        ..old(self)@[i]
                    }),
                )
            }),
            !contains_id(old(self)@, id) ==> r == Err::<(), ResponseError>(
                ResponseError::TaskNotFound,
            ) && final(self)@ == old(self)@,
    {
        match self.find_index(id) {
            None => Err(ResponseError::TaskNotFound),
            Some(i) => {
                let old_task = &self.tasks[i];
                let stamp = if now >= old_task.updated_at {
                    now
                } else {
                    old_task.updated_at
                };
                let replacement = Task::new(
                    old_task.id,
                    old_task.description.clone(),
                    status,
                    old_task.created_at,
                    stamp,
                );
                self.tasks[i] = replacement;
                proof {
                    lemma_idx_of_unique(old(self)@, i as int, id);
                    assert(self@ =~= old(self)@.update(i as int, replacement@));
                    let s = self@;
                    assert(forall|k: int| 0 <= k < s.len() && k != i ==> s[k] == old(self)@[k]);
                    assert(ids_ascending(s));
                    assert(tasks_valid(s));
                }
                Ok(())
            },
        }
    }

    /// The tasks matching `filter`, in store order (ascending by id for a
    /// well-formed store).
    pub fn list(&self, filter: ListOptions) -> (r: Vec<Task>)
        ensures
            r.deep_view() == self@.filter(filter_pred(filter)),
    {
        let mut r: Vec<Task> = Vec::new();
        let mut i: usize = 0;
        proof {
            reveal(Seq::filter);
            assert(self@.take(0) =~= Seq::<TaskSpec>::empty());
            assert(r.deep_view() =~= self@.take(0).filter(filter_pred(filter)));
        }
        while i < self.tasks.len()
            invariant
                0 <= i <= self@.len() == self.tasks@.len(),
                r.deep_view() == self@.take(i as int).filter(filter_pred(filter)),
            decreases self@.len() - i,
        {
            let ghost prev = r.deep_view();
            let matched = status_matches_exec(filter, self.tasks[i].status);
            if matched {
                let copy = self.tasks[i].clone();
                r.push(copy);
            }
            proof {
                reveal(Seq::filter);
                assert(self@.take(i as int + 1).drop_last() =~= self@.take(i as int));
                assert(self@.take(i as int + 1).last() == self@[i as int]);
                if matched {
                    assert(r.deep_view() =~= prev.push(self@[i as int]));
                }
                assert(r.deep_view() =~= self@.take(i as int + 1).filter(filter_pred(filter)));
            }
            i += 1;
        }
        proof {
            assert(self@.take(self@.len() as int) =~= self@);
        }
        r
    }
}

/// Timestamp after a mutation stamped with `now`: it moves forward, never
/// backward.
pub open spec fn advance(prev: u64, now: u64) -> u64 {
    if now >= prev {
        now
    } else {
        prev
    }
}

/// The selection a listing applies.
#[derive(Clone, Copy, Debug, PartialEq, Eq, Structural)]
pub enum ListOptions {
    All,
    Done,
    New,
    InProgress,
}

/// Does a task with status `st` fall under `filter`?
pub open spec fn status_matches(filter: ListOptions, st: TaskStatus) -> bool {
    match filter {
        ListOptions::All => true,
        ListOptions::Done => st == TaskStatus::Done,
        ListOptions::New => st == TaskStatus::New,
        ListOptions::InProgress => st == TaskStatus::InProgress,
    }
}

/// The task predicate a filter selects by.
pub open spec fn filter_pred(filter: ListOptions) -> spec_fn(TaskSpec) -> bool {
    |t: TaskSpec| status_matches(filter, t.status)
}

fn status_matches_exec(filter: ListOptions, st: TaskStatus) -> (b: bool)
    ensures
        b == status_matches(filter, st),
{
    match filter {
        ListOptions::All => true,
        ListOptions::Done => st == TaskStatus::Done,
        ListOptions::New => st == TaskStatus::New,
        ListOptions::InProgress => st == TaskStatus::InProgress,
    }
}

/// The next id to assign: one more than the largest id present, or `1` for
/// an empty store.
pub fn create_new_id(store: &TaskStore) -> (id: u64)
    requires
        max_id(store@) < u64::MAX,
    ensures
        id == max_id(store@) + 1,
{
    let mut highest: u64 = 0;
    let mut i: usize = 0;
    proof {
        assert(store@.take(0) =~= Seq::<TaskSpec>::empty());
    }
    while i < store.tasks.len()
        invariant
            0 <= i <= store@.len() == store.tasks@.len(),
            highest == max_id(store@.take(i as int)),
            highest <= max_id(store@) < u64::MAX,
        decreases store@.len() - i,
    {
        proof {
            assert(store@.take(i as int + 1).drop_last() =~= store@.take(i as int));
            assert(store@.take(i as int + 1).last() == store@[i as int]);
            lemma_max_id_take_le(store@, i as int + 1);
        }
        if store.tasks[i].id > highest {
            highest = store.tasks[i].id;
        }
        i += 1;
    }
    proof {
        assert(store@.take(store@.len() as int) =~= store@);
    }
    highest + 1
}

/// Ids never decrease along the sequence (duplicates allowed, for sequences
/// that are not a store's contents).
pub open spec fn sorted_by_id(s: Seq<TaskSpec>) -> bool {
    forall|i: int, j: int| 0 <= i < j < s.len() ==> s[i].id <= s[j].id
}

/// `x` placed into `s` just before the first task with a larger id.
pub open spec fn spec_insert_by_id(x: TaskSpec, s: Seq<TaskSpec>) -> Seq<TaskSpec>
    decreases s.len(),
{
    if s.len() > 0 && s[0].id <= x.id {
        seq![s[0]] + spec_insert_by_id(x, s.drop_first())
    } else {
        seq![x] + s
    }
}

/// Insertion sort of tasks by ascending id.
pub open spec fn spec_sort_by_id(s: Seq<TaskSpec>) -> Seq<TaskSpec>
    decreases s.len(),
{
    if s.len() == 0 {
        s
    } else {
        spec_insert_by_id(s.last(), spec_sort_by_id(s.drop_last()))
    }
}

/// Where the insertion lands: at the first position whose id is larger.
proof fn lemma_spec_insert_at(x: TaskSpec, s: Seq<TaskSpec>, k: int)
    requires
        0 <= k <= s.len(),
        forall|j: int| 0 <= j < k ==> #[trigger] s[j].id <= x.id,
        k == s.len() || s[k].id > x.id,
    ensures
        spec_insert_by_id(x, s) == s.take(k) + seq![x] + s.skip(k),
    decreases k,
{
    if k == 0 {
        assert(s.take(0) + seq![x] + s.skip(0) =~= seq![x] + s);
    } else {
        assert(s[0].id <= x.id);
        lemma_spec_insert_at(x, s.drop_first(), k - 1);
        assert(s.drop_first().take(k - 1) =~= s.take(k).drop_first());
        assert(s.drop_first().skip(k - 1) =~= s.skip(k));
        assert(seq![s[0]] + (s.drop_first().take(k - 1) + seq![x] + s.drop_first().skip(k - 1))
            =~= s.take(k) + seq![x] + s.skip(k));
    }
}

/// Inserting into an id-sorted sequence keeps it id-sorted.
proof fn lemma_insert_keeps_sorted(x: TaskSpec, s: Seq<TaskSpec>, k: int)
    requires
        sorted_by_id(s),
        0 <= k <= s.len(),
        forall|j: int| 0 <= j < k ==> #[trigger] s[j].id <= x.id,
        k == s.len() || s[k].id > x.id,
    ensures
        sorted_by_id(s.take(k) + seq![x] + s.skip(k)),
{
    let r = s.take(k) + seq![x] + s.skip(k);
    assert(forall|i: int| 0 <= i < k ==> r[i] == s[i]);
    assert(r[k] == x);
    assert(forall|i: int| k < i < r.len() ==> r[i] == s[i - 1]);
}

/// Sorting an already strictly ascending sequence changes nothing.
pub proof fn lemma_sort_of_ascending(s: Seq<TaskSpec>)
    requires
        ids_ascending(s),
    ensures
        spec_sort_by_id(s) == s,
    decreases s.len(),
{
    if s.len() > 0 {
        let d = s.drop_last();
        assert(forall|i: int, j: int| 0 <= i < j < d.len() ==> d[i].id < d[j].id);
        lemma_sort_of_ascending(d);
        assert(forall|j: int| 0 <= j < d.len() ==> #[trigger] d[j].id <= s.last().id);
        lemma_spec_insert_at(s.last(), d, d.len() as int);
        assert(d.take(d.len() as int) =~= d);
        assert(d.skip(d.len() as int) =~= Seq::<TaskSpec>::empty());
        assert(d + seq![s.last()] + Seq::<TaskSpec>::empty() =~= s);
    }
}

/// Sorts tasks ascending by id (ties keep their relative order).
pub fn filtered_vector_to_sorted_vec(filtered_vector: Vec<Task>) -> (r: Vec<Task>)
    ensures
        r.deep_view() == spec_sort_by_id(filtered_vector.deep_view()),
        sorted_by_id(r.deep_view()),
{
    let ghost v = filtered_vector.deep_view();
    let mut r: Vec<Task> = Vec::new();
    let mut i: usize = 0;
    proof {
        assert(r.deep_view() =~= Seq::<TaskSpec>::empty());
        assert(v.take(0) =~= Seq::<TaskSpec>::empty());
    }
    while i < filtered_vector.len()
        invariant
            0 <= i <= v.len() == filtered_vector@.len(),
            v == filtered_vector.deep_view(),
            r.deep_view() == spec_sort_by_id(v.take(i as int)),
            sorted_by_id(r.deep_view()),
        decreases v.len() - i,
    {
        let ghost sorted_prefix = r.deep_view();
        let x = filtered_vector[i].clone();
        // Find the first position whose id is larger.
        let mut k: usize = 0;
        while k < r.len() && r[k].id <= x.id
            invariant
                0 <= k <= r.deep_view().len() == r@.len(),
                r.deep_view() == sorted_prefix,
                x@ == v[i as int],
                forall|j: int| 0 <= j < k ==> #[trigger] sorted_prefix[j].id <= x@.id,
            decreases r@.len() - k,
        {
            k += 1;
        }
        r.insert(k, x);
        proof {
            lemma_spec_insert_at(x@, sorted_prefix, k as int);
            lemma_insert_keeps_sorted(x@, sorted_prefix, k as int);
            assert(r.deep_view() =~= sorted_prefix.take(k as int) + seq![x@] + sorted_prefix.skip(
                k as int,
            ));
            assert(v.take(i as int + 1).drop_last() =~= v.take(i as int));
            assert(v.take(i as int + 1).last() == v[i as int]);
        }
        i += 1;
    }
    proof {
        assert(v.take(v.len() as int) =~= v);
    }
    r
}

/// Every task of the store, ascending by id.
pub fn task_hash_to_filtered_vector(task_hash: &TaskStore) -> (r: Vec<Task>)
    ensures
        r.deep_view() == spec_sort_by_id(task_hash@),
        sorted_by_id(r.deep_view()),
        task_hash.wf() ==> r.deep_view() == task_hash@,
{
    let all = task_hash.list(ListOptions::All);
    proof {
        lemma_filter_all(task_hash@);
        if task_hash.wf() {
            lemma_sort_of_ascending(task_hash@);
        }
    }
    filtered_vector_to_sorted_vec(all)
}

/// Listing with `All` selects every task.
pub proof fn lemma_filter_all(s: Seq<TaskSpec>)
    ensures
        s.filter(filter_pred(ListOptions::All)) == s,
    decreases s.len(),
{
    reveal(Seq::filter);
    if s.len() == 0 {
    } else {
        lemma_filter_all(s.drop_last());
        assert(s.drop_last().push(s.last()) =~= s);
    }
}

/// The three status filters split a store exactly: each task falls under
/// precisely one of `New`, `InProgress` and `Done`.
pub proof fn lemma_status_partition(s: Seq<TaskSpec>)
    ensures
        s.filter(filter_pred(ListOptions::New)).len() + s.filter(
            filter_pred(ListOptions::InProgress),
        ).len() + s.filter(filter_pred(ListOptions::Done)).len() == s.len(),
    decreases s.len(),
{
    reveal(Seq::filter);
    if s.len() > 0 {
        lemma_status_partition(s.drop_last());
    }
}

/// Every task a filter keeps stands in the store it was taken from.
proof fn lemma_filter_within(s: Seq<TaskSpec>, pred: spec_fn(TaskSpec) -> bool)
    ensures
        forall|i: int| 0 <= i < s.filter(pred).len() ==> s.contains(#[trigger] s.filter(pred)[i]),
    decreases s.len(),
{
    reveal(Seq::filter);
    if s.len() > 0 {
        let d = s.drop_last();
        lemma_filter_within(d, pred);
        assert(forall|i: int| 0 <= i < d.len() ==> d[i] == s[i]);
        assert forall|x: TaskSpec| d.contains(x) implies s.contains(x) by {
            let k = choose|k: int| 0 <= k < d.len() && d[k] == x;
            assert(s[k] == x);
        }
        let f = s.filter(pred);
        let fd = d.filter(pred);
        if pred(s.last()) {
            assert(f == fd.push(s.last()));
            assert(s[s.len() - 1] == s.last());
            assert(s.contains(s.last()));
            assert forall|i: int| 0 <= i < f.len() implies s.contains(f[i]) by {
                if i < fd.len() {
                    assert(f[i] == fd[i]);
                    assert(d.contains(fd[i]));
                } else {
                    assert(f[i] == s.last());
                }
            }
        } else {
            assert(f == fd);
            assert forall|i: int| 0 <= i < f.len() implies s.contains(f[i]) by {
                assert(d.contains(fd[i]));
            }
        }
    }
}

/// Filtering keeps the store's strict id order: a listing of a well-formed
/// store is ascending by id.
pub proof fn lemma_filter_keeps_ascending(s: Seq<TaskSpec>, pred: spec_fn(TaskSpec) -> bool)
    requires
        ids_ascending(s),
    ensures
        ids_ascending(s.filter(pred)),
    decreases s.len(),
{
    reveal(Seq::filter);
    if s.len() > 0 {
        let d = s.drop_last();
        assert(forall|i: int, j: int| 0 <= i < j < d.len() ==> d[i].id < d[j].id);
        lemma_filter_keeps_ascending(d, pred);
        if pred(s.last()) {
            lemma_filter_within(d, pred);
            assert(forall|i: int| 0 <= i < d.len() ==> #[trigger] d[i].id < s.last().id);
            let f = d.filter(pred);
            assert(forall|i: int| 0 <= i < f.len() ==> #[trigger] f[i].id < s.last().id) by {
                assert(forall|i: int| 0 <= i < f.len() ==> d.contains(#[trigger] f[i]));
            }
            assert(ids_ascending(f.push(s.last())));
        }
    }
}

/// A prefix never has a larger maximum than the whole.
pub proof fn lemma_max_id_take_le(s: Seq<TaskSpec>, k: int)
    requires
        0 <= k <= s.len(),
    ensures
        max_id(s.take(k)) <= max_id(s),
    decreases s.len() - k,
{
    if k == s.len() {
        assert(s.take(k) =~= s);
    } else {
        lemma_max_id_take_le(s, k + 1);
        assert(s.take(k + 1).drop_last() =~= s.take(k));
    }
}

} // verus!
