//! Properties that relate the store's operations to one another.
use vstd::prelude::*;

use crate::model::{Favourite, Task};
use crate::store::{
    date_within, delta_overflows, distinct_names, favourite_created, favourite_removed,
    has_favourite, has_task, lemma_distinct_names_unique, lemma_filter_from,
    lemma_filter_newest_first, newest_first, recent_names, task_created, task_removed,
    task_ids_unique, task_with_id, tasks_between, tasks_on, with_delta, with_total, falls_on,
    falls_between, TimeStore, RECENT_NAME_LIMIT,
};
use crate::text::{
    date_of, lemma_date_of_identity, lemma_date_of_midnight, lemma_date_of_spaceless,
    midnight_suffix, spaceless,
};

verus! {

/// A task just created from a date is found again by its id, timestamped at
/// midnight of that date and holding the given initial seconds (zero when
/// absent).
pub proof fn lemma_create_then_get(
    before: TimeStore,
    after: TimeStore,
    t: Task,
    name: Seq<char>,
    date: Seq<char>,
    initial_seconds: Option<i64>,
)
    requires
        before.wf(),
        after.wf(),
        task_created(before, after, t, name, date, initial_seconds),
        spaceless(date),
    ensures
        task_with_id(after.task_rows(), t.id) == Some(t),
        t.created_at@ == date + midnight_suffix(),
        t.total_seconds == match initial_seconds {
            Some(v) => v,
            None => 0,
        },
{
    lemma_date_of_identity(date);
    after.lemma_wf();
    let rows = after.task_rows();
    let p = choose|p: int|
        0 <= p <= before.task_rows().len() && rows == before.task_rows().insert(p, t);
    assert(rows[p] == t);
    assert(has_task(rows, t.id));
    let c = choose|k: int| 0 <= k < rows.len() && (#[trigger] rows[k]).id == t.id;
    if c != p {
        if c < p {
            assert(rows[c].id != rows[p].id);
        } else {
            assert(rows[p].id != rows[c].id);
        }
    }
}

/// A task just created is listed under the date it was created for.
pub proof fn lemma_created_task_listed_on_its_date(
    before: TimeStore,
    after: TimeStore,
    t: Task,
    name: Seq<char>,
    date: Seq<char>,
    initial_seconds: Option<i64>,
)
    requires
        before.wf(),
        after.wf(),
        task_created(before, after, t, name, date, initial_seconds),
    ensures
        tasks_on(after.task_rows(), date_of(date)).contains(t),
        spaceless(date) ==> tasks_on(after.task_rows(), date).contains(t),
{
    after.lemma_wf();
    let p = choose|p: int|
        0 <= p <= before.task_rows().len() && after.task_rows() == before.task_rows().insert(p, t);
    assert(after.task_rows()[p] == t);
    lemma_date_of_spaceless(date);
    lemma_date_of_midnight(date_of(date));
    lemma_tasks_on_exact(after.task_rows(), date_of(date));
    if spaceless(date) {
        lemma_date_of_identity(date);
    }
}

/// Adding a signed amount to a task, by either name of the operation, leaves
/// its total at the old total plus the amount and every other task as it was.
pub proof fn lemma_delta_adds(s: Seq<Task>, id: i64, delta: i64, k: int)
    requires
        task_ids_unique(s),
        0 <= k < s.len(),
        !delta_overflows(s, id, delta),
    ensures
        with_delta(s, id, delta).len() == s.len(),
        s[k].id == id ==> with_delta(s, id, delta)[k].total_seconds == s[k].total_seconds + delta,
        s[k].id == id ==> with_delta(s, id, delta)[k] == (Task {
            total_seconds: with_delta(s, id, delta)[k].total_seconds,
            ..s[k]
        }),
        s[k].id != id ==> with_delta(s, id, delta)[k] == s[k],
{
    assert(s[k].id == id ==> i64::MIN <= s[k].total_seconds + delta <= i64::MAX);
}

/// Setting a task's total gives exactly the value set, whatever it was.
pub proof fn lemma_total_set(s: Seq<Task>, id: i64, v: i64, k: int)
    requires
        0 <= k < s.len(),
        s[k].id == id,
    ensures
        with_total(s, id, v)[k].total_seconds == v,
{
}

/// The listing of a date holds exactly the tasks created on that date, newest
/// first.
pub proof fn lemma_tasks_on_exact(s: Seq<Task>, date: Seq<char>)
    requires
        newest_first(s),
    ensures
        newest_first(tasks_on(s, date)),
        forall|t: Task|
            #[trigger] tasks_on(s, date).contains(t) <==> (s.contains(t) && date_of(t.created_at@)
                == date),
{
    broadcast use vstd::seq_lib::group_filter_ensures;

    lemma_filter_newest_first(s, falls_on(date));
    lemma_filter_from(s, falls_on(date));
    assert forall|t: Task| #[trigger] tasks_on(s, date).contains(t) <==> (s.contains(t)
        && date_of(t.created_at@) == date) by {
        if tasks_on(s, date).contains(t) {
            let i = choose|i: int| 0 <= i < tasks_on(s, date).len() && tasks_on(s, date)[i] == t;
            assert(s.contains(tasks_on(s, date)[i]));
        }
        if s.contains(t) && date_of(t.created_at@) == date {
            let i = choose|i: int| 0 <= i < s.len() && s[i] == t;
            assert(s.filter(falls_on(date)).contains(s[i]));
        }
    }
}

/// The listing of a date range is the union of the listings of the dates in
/// it, newest first overall.
pub proof fn lemma_range_is_union_of_days(s: Seq<Task>, start: Seq<char>, end: Seq<char>)
    requires
        newest_first(s),
    ensures
        newest_first(tasks_between(s, start, end)),
        forall|t: Task|
            #[trigger] tasks_between(s, start, end).contains(t) <==> exists|d: Seq<char>|
                date_within(d, start, end) && #[trigger] tasks_on(s, d).contains(t),
{
    broadcast use vstd::seq_lib::group_filter_ensures;

    let p = falls_between(start, end);
    lemma_filter_newest_first(s, p);
    lemma_filter_from(s, p);
    assert forall|t: Task| #[trigger] tasks_between(s, start, end).contains(t) <==> exists|
        d: Seq<char>,
    | date_within(d, start, end) && #[trigger] tasks_on(s, d).contains(t) by {
        let r = tasks_between(s, start, end);
        if r.contains(t) {
            let i = choose|i: int| 0 <= i < r.len() && r[i] == t;
            assert(s.contains(r[i]));
            let d = date_of(t.created_at@);
            lemma_tasks_on_exact(s, d);
            assert(tasks_on(s, d).contains(t));
        }
        if exists|d: Seq<char>| date_within(d, start, end) && #[trigger] tasks_on(s, d).contains(t) {
            let d = choose|d: Seq<char>| date_within(d, start, end) && #[trigger] tasks_on(s, d).contains(t);
            lemma_tasks_on_exact(s, d);
            let i = choose|i: int| 0 <= i < s.len() && s[i] == t;
            assert(s.filter(p).contains(s[i]));
        }
    }
}

/// Deleting a task id that no task has leaves the tasks unchanged.
pub proof fn lemma_delete_missing_task(before: Seq<Task>, after: Seq<Task>, id: i64)
    requires
        !has_task(before, id),
        task_removed(before, after, id),
    ensures
        after == before,
{
}

/// Deleting a favourite id that no favourite has leaves the favourites
/// unchanged.
pub proof fn lemma_delete_missing_favourite(
    before: Seq<Favourite>,
    after: Seq<Favourite>,
    id: i64,
)
    requires
        !has_favourite(before, id),
        favourite_removed(before, after, id),
    ensures
        after == before,
{
}

/// The recent names never number more than the limit and never repeat.
pub proof fn lemma_recent_names_bounded(s: Seq<Task>)
    ensures
        recent_names(s).len() <= RECENT_NAME_LIMIT,
        recent_names(s).no_duplicates(),
{
    lemma_distinct_names_unique(s);
    let d = distinct_names(s);
    if d.len() > RECENT_NAME_LIMIT {
        let r = d.take(RECENT_NAME_LIMIT as int);
        assert forall|i: int, j: int| 0 <= i < r.len() && 0 <= j < r.len() && i != j implies r[i]
            != r[j] by {
            assert(r[i] == d[i] && r[j] == d[j]);
        }
    }
}

/// A favourite just created is listed exactly once, with its name and
/// duration; deleting it afterwards takes it out of the listing.
pub proof fn lemma_favourite_round_trip(
    s0: TimeStore,
    s1: TimeStore,
    s2: Seq<Favourite>,
    id: i64,
    name: String,
    duration_seconds: i64,
)
    requires
        s0.wf(),
        favourite_created(s0, s1, id, name, duration_seconds),
        favourite_removed(s1.favourite_rows(), s2, id),
    ensures
        has_favourite(s1.favourite_rows(), id),
        forall|k: int|
            0 <= k < s1.favourite_rows().len() && (#[trigger] s1.favourite_rows()[k]).id == id
                ==> k == s1.favourite_rows().len() - 1 && s1.favourite_rows()[k] == (Favourite {
                id,
                name,
                duration_seconds,
            }),
        !has_favourite(s2, id),
{
    s0.lemma_wf();
    let rows = s1.favourite_rows();
    let n = rows.len() - 1;
    assert(rows[n].id == id);
    assert forall|k: int| 0 <= k < rows.len() && (#[trigger] rows[k]).id == id implies k == n by {
        if k < n {
            assert(rows[k] == s0.favourite_rows()[k]);
        }
    }
    let k = choose|k: int| 0 <= k < rows.len() && (#[trigger] rows[k]).id == id && s2 == rows.remove(k);
    assert(k == n);
    assert forall|j: int| 0 <= j < s2.len() implies (#[trigger] s2[j]).id != id by {
        assert(s2[j] == rows[j]);
    }
}

} // verus!
