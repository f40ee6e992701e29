use vstd::prelude::*;

use crate::clock::local_today;
use crate::model::{Favourite, Task};
use crate::text::{
    date_of, date_part, is_after, lemma_after_total, lemma_after_transitive, midnight_of,
    midnight_suffix, text_after,
};

verus! {

/// `a` is listed before `b`: it was created later, or at the same instant
/// with a larger id.
pub open spec fn listed_before(a: Task, b: Task) -> bool {
    text_after(a.created_at@, b.created_at@) || (a.created_at@ == b.created_at@ && a.id > b.id)
}

/// Every task is listed before all that follow it: newest first.
pub open spec fn newest_first(s: Seq<Task>) -> bool {
    forall|i: int, j: int| 0 <= i < j < s.len() ==> listed_before(#[trigger] s[i], #[trigger] s[j])
}

/// No two tasks share an id.
pub open spec fn task_ids_unique(s: Seq<Task>) -> bool {
    forall|i: int, j: int| 0 <= i < j < s.len() ==> (#[trigger] s[i]).id != (#[trigger] s[j]).id
}

/// Some task has this id.
pub open spec fn has_task(s: Seq<Task>, id: i64) -> bool {
    exists|k: int| 0 <= k < s.len() && (#[trigger] s[k]).id == id
}

/// The task with this id, if any.
pub open spec fn task_with_id(s: Seq<Task>, id: i64) -> Option<Task> {
    if has_task(s, id) {
        Some(s[choose|k: int| 0 <= k < s.len() && (#[trigger] s[k]).id == id])
    } else {
        None
    }
}

/// The tasks whose creation timestamp falls on `date`, in listing order.
pub open spec fn tasks_on(s: Seq<Task>, date: Seq<char>) -> Seq<Task> {
    s.filter(falls_on(date))
}

/// The task's creation date is `date`.
pub open spec fn falls_on(date: Seq<char>) -> spec_fn(Task) -> bool {
    |t: Task| date_of(t.created_at@) == date
}

/// The task's creation date lies between `start` and `end` inclusive.
pub open spec fn falls_between(start: Seq<char>, end: Seq<char>) -> spec_fn(Task) -> bool {
    |t: Task| date_within(date_of(t.created_at@), start, end)
}

/// `date` lies in the inclusive range from `start` to `end`.
pub open spec fn date_within(date: Seq<char>, start: Seq<char>, end: Seq<char>) -> bool {
    !text_after(start, date) && !text_after(date, end)
}

/// The tasks whose creation date lies between `start` and `end` inclusive,
/// in listing order.
pub open spec fn tasks_between(s: Seq<Task>, start: Seq<char>, end: Seq<char>) -> Seq<Task> {
    s.filter(falls_between(start, end))
}

/// How many names autocompletion offers at most.
pub const RECENT_NAME_LIMIT: usize = 50;

/// The texts of a sequence of strings.
pub open spec fn texts(v: Seq<String>) -> Seq<Seq<char>> {
    v.map_values(|s: String| s@)
}

/// The task names in listing order, each kept at its first (most recent)
/// occurrence only.
pub open spec fn distinct_names(s: Seq<Task>) -> Seq<Seq<char>>
    decreases s.len(),
{
    if s.len() == 0 {
        Seq::empty()
    } else {
        let d = distinct_names(s.drop_last());
        if d.contains(s.last().name@) {
            d
        } else {
            d.push(s.last().name@)
        }
    }
}

/// The most recent distinct task names, at most `RECENT_NAME_LIMIT` of them.
pub open spec fn recent_names(s: Seq<Task>) -> Seq<Seq<char>> {
    let d = distinct_names(s);
    if d.len() <= RECENT_NAME_LIMIT {
        d
    } else {
        d.take(RECENT_NAME_LIMIT as int)
    }
}

/// The distinct names of a prefix start the distinct names of the whole.
pub proof fn lemma_distinct_names_prefix(s: Seq<Task>, i: int)
    requires
        0 <= i <= s.len(),
    ensures
        distinct_names(s.take(i)).len() <= distinct_names(s).len(),
        distinct_names(s).take(distinct_names(s.take(i)).len() as int) == distinct_names(s.take(i)),
    decreases s.len(),
{
    if i == s.len() {
        assert(s.take(i) =~= s);
        assert(distinct_names(s).take(distinct_names(s).len() as int) =~= distinct_names(s));
    } else {
        assert(s.drop_last().take(i) =~= s.take(i));
        lemma_distinct_names_prefix(s.drop_last(), i);
        let e = distinct_names(s.take(i));
        let d = distinct_names(s.drop_last());
        if !d.contains(s.last().name@) {
            assert(d.push(s.last().name@).take(e.len() as int) =~= d.take(e.len() as int));
        }
    }
}

/// No name occurs twice among the distinct names.
pub proof fn lemma_distinct_names_unique(s: Seq<Task>)
    ensures
        distinct_names(s).no_duplicates(),
    decreases s.len(),
{
    if s.len() > 0 {
        lemma_distinct_names_unique(s.drop_last());
        let d = distinct_names(s.drop_last());
        if !d.contains(s.last().name@) {
            let e = d.push(s.last().name@);
            assert forall|i: int, j: int| 0 <= i < e.len() && 0 <= j < e.len() && i != j implies e[i] != e[j] by {
                if i < d.len() && j < d.len() {
                } else if i == d.len() {
                    assert(d[j] == e[j]);
                } else {
                    assert(d[i] == e[i]);
                }
            }
        }
    }
}

/// Listing order is transitive.
pub proof fn lemma_listed_transitive(a: Task, b: Task, c: Task)
    requires
        listed_before(a, b),
        listed_before(b, c),
    ensures
        listed_before(a, c),
{
    if text_after(a.created_at@, b.created_at@) && text_after(b.created_at@, c.created_at@) {
        lemma_after_transitive(a.created_at@, b.created_at@, c.created_at@);
    }
}

/// Every element of a filtered sequence comes from the sequence.
pub proof fn lemma_filter_from<A>(s: Seq<A>, p: spec_fn(A) -> bool)
    ensures
        forall|i: int|
            0 <= i < s.filter(p).len() ==> s.contains(#[trigger] s.filter(p)[i]) && p(
                s.filter(p)[i],
            ),
    decreases s.len(),
{
    broadcast use Seq::lemma_filter_pred;

    reveal(Seq::filter);
    if s.len() > 0 {
        lemma_filter_from(s.drop_last(), p);
        let f = s.filter(p);
        assert forall|i: int| 0 <= i < f.len() implies s.contains(#[trigger] f[i]) by {
            let g = s.drop_last().filter(p);
            if i < g.len() {
                assert(f[i] == g[i]);
                let j = choose|j: int| 0 <= j < s.drop_last().len() && s.drop_last()[j] == g[i];
                assert(s[j] == f[i]);
            } else {
                assert(f[i] == s[s.len() - 1]);
            }
        }
    }
}

/// Filtering keeps tasks in listing order.
pub proof fn lemma_filter_newest_first(s: Seq<Task>, p: spec_fn(Task) -> bool)
    requires
        newest_first(s),
    ensures
        newest_first(s.filter(p)),
    decreases s.len(),
{
    reveal(Seq::filter);
    if s.len() > 0 {
        let d = s.drop_last();
        assert(newest_first(d));
        lemma_filter_newest_first(d, p);
        lemma_filter_from(d, p);
        let g = d.filter(p);
        let f = s.filter(p);
        if p(s.last()) {
            assert forall|i: int, j: int| 0 <= i < j < f.len() implies listed_before(
                #[trigger] f[i],
                #[trigger] f[j],
            ) by {
                assert(f[i] == g[i]);
                if j < g.len() {
                    assert(f[j] == g[j]);
                } else {
                    assert(d.contains(g[i]));
                    let k = choose|k: int| 0 <= k < d.len() && d[k] == g[i];
                    assert(s[k] == f[i]);
                    assert(listed_before(s[k], s[s.len() - 1]));
                }
            }
        }
    }
}

/// `after` is `before` with the task of this id taken out, or `before`
/// itself when no task has it.
pub open spec fn task_removed(before: Seq<Task>, after: Seq<Task>, id: i64) -> bool {
    if has_task(before, id) {
        exists|k: int| 0 <= k < before.len() && (#[trigger] before[k]).id == id && after == before.remove(k)
    } else {
        after == before
    }
}

/// Some favourite has this id.
pub open spec fn has_favourite(s: Seq<Favourite>, id: i64) -> bool {
    exists|k: int| 0 <= k < s.len() && (#[trigger] s[k]).id == id
}

/// `after` is `before` with the favourite of this id taken out, or `before`
/// itself when no favourite has it.
pub open spec fn favourite_removed(before: Seq<Favourite>, after: Seq<Favourite>, id: i64) -> bool {
    if has_favourite(before, id) {
        exists|k: int| 0 <= k < before.len() && (#[trigger] before[k]).id == id && after == before.remove(k)
    } else {
        after == before
    }
}

/// The tasks after setting the accumulator of the one with this id to `v`.
pub open spec fn with_total(s: Seq<Task>, id: i64, v: i64) -> Seq<Task> {
    s.map_values(|t: Task| if t.id == id { Task { total_seconds: v, ..t } } else { t })
}

/// The tasks after renaming the one with this id.
pub open spec fn with_name(s: Seq<Task>, id: i64, name: String) -> Seq<Task> {
    s.map_values(|t: Task| if t.id == id { Task { name: name, ..t } } else { t })
}

/// The tasks after replacing the note of the one with this id.
pub open spec fn with_note(s: Seq<Task>, id: i64, note: Option<String>) -> Seq<Task> {
    s.map_values(|t: Task| if t.id == id { Task { note: note, ..t } } else { t })
}

/// Adding `delta` to the task with this id leaves the range of `i64`.
pub open spec fn delta_overflows(s: Seq<Task>, id: i64, delta: i64) -> bool {
    exists|k: int|
        0 <= k < s.len() && (#[trigger] s[k]).id == id && !(i64::MIN <= s[k].total_seconds
            + delta <= i64::MAX)
}

/// The tasks after adding `delta` to the accumulator of the one with this id.
pub open spec fn with_delta(s: Seq<Task>, id: i64, delta: i64) -> Seq<Task> {
    s.map_values(
        |t: Task|
            if t.id == id {
                Task { total_seconds: (t.total_seconds + delta) as i64, ..t }
            } else {
                t
            },
    )
}

/// `after` is `before` with the task `t` newly created from `name`, `date`
/// and the optional initial seconds: the next id, midnight of the date part
/// of `date` (any time of day in it is ignored), no note, filed at its place
/// in the listing order.
pub open spec fn task_created(
    before: TimeStore,
    after: TimeStore,
    t: Task,
    name: Seq<char>,
    date: Seq<char>,
    initial_seconds: Option<i64>,
) -> bool {
    &&& t.id == before.last_task_id() + 1
    &&& t.name@ == name
    &&& t.total_seconds == match initial_seconds {
        Some(v) => v,
        None => 0,
    }
    &&& t.created_at@ == date_of(date) + midnight_suffix()
    &&& t.note is None
    &&& after.last_task_id() == t.id
    &&& exists|p: int|
        0 <= p <= before.task_rows().len() && after.task_rows() == before.task_rows().insert(p, t)
}

/// `after` is `before` with a favourite of this id, name and duration
/// newly created under the next id, after all the others.
pub open spec fn favourite_created(
    before: TimeStore,
    after: TimeStore,
    id: i64,
    name: String,
    duration_seconds: i64,
) -> bool {
    &&& id == before.last_favourite_id() + 1
    &&& after.last_favourite_id() == id
    &&& after.favourite_rows() == before.favourite_rows().push(
        Favourite { id, name, duration_seconds },
    )
}

/// The store of tasks and favourites. Tasks are kept in listing order,
/// newest first; favourites in the order of their ids, as they were created.
pub struct TimeStore {
    tasks: Vec<Task>,
    favourites: Vec<Favourite>,
    last_task_id: i64,
    last_favourite_id: i64,
}

impl TimeStore {
    /// The tasks, newest first.
    pub closed spec fn task_rows(&self) -> Seq<Task> {
        self.tasks@
    }

    /// The favourites, in the order they were created.
    pub closed spec fn favourite_rows(&self) -> Seq<Favourite> {
        self.favourites@
    }

    /// The largest task id handed out so far; ids are never reused.
    pub closed spec fn last_task_id(&self) -> int {
        self.last_task_id as int
    }

    /// The largest favourite id handed out so far; ids are never reused.
    pub closed spec fn last_favourite_id(&self) -> int {
        self.last_favourite_id as int
    }

    /// The store's invariant: tasks newest first with unique positive ids no
    /// larger than the last one handed out; favourites in strictly increasing
    /// id order, likewise bounded.
    pub closed spec fn wf(&self) -> bool {
        &&& newest_first(self.tasks@)
        &&& task_ids_unique(self.tasks@)
        &&& self.last_task_id >= 0
        &&& forall|i: int|
            0 <= i < self.tasks@.len() ==> 0 < (#[trigger] self.tasks@[i]).id
                <= self.last_task_id
        &&& self.last_favourite_id >= 0
        &&& forall|i: int, j: int|
            0 <= i < j < self.favourites@.len() ==> (#[trigger] self.favourites@[i]).id
                < (#[trigger] self.favourites@[j]).id
        &&& forall|i: int|
            0 <= i < self.favourites@.len() ==> 0 < (#[trigger] self.favourites@[i]).id
                <= self.last_favourite_id
    }

    /// The invariant, as callers may rely on it.
    pub proof fn lemma_wf(&self)
        requires
            self.wf(),
        ensures
            newest_first(self.task_rows()),
            task_ids_unique(self.task_rows()),
            forall|i: int|
                0 <= i < self.task_rows().len() ==> 0 < (#[trigger] self.task_rows()[i]).id
                    <= self.last_task_id(),
            forall|i: int, j: int|
                0 <= i < j < self.favourite_rows().len() ==> (
                #[trigger] self.favourite_rows()[i]).id < (
                #[trigger] self.favourite_rows()[j]).id,
            forall|i: int|
                0 <= i < self.favourite_rows().len() ==> 0 < (
                #[trigger] self.favourite_rows()[i]).id <= self.last_favourite_id(),
    {
    }

    /// An empty store.
    pub fn new() -> (r: TimeStore)
        ensures
            r.wf(),
            r.task_rows() == Seq::<Task>::empty(),
            r.favourite_rows() == Seq::<Favourite>::empty(),
            r.last_task_id() == 0,
            r.last_favourite_id() == 0,
    {
        TimeStore { tasks: Vec::new(), favourites: Vec::new(), last_task_id: 0, last_favourite_id: 0 }
    }

    /// Where the task with this id stands, if anywhere.
    fn position_of(&self, task_id: i64) -> (r: Option<usize>)
        requires
            self.wf(),
        ensures
            match r {
                Some(k) => k < self.tasks@.len() && self.tasks@[k as int].id == task_id,
                None => !has_task(self.tasks@, task_id),
            },
    {
        let mut i: usize = 0;
        while i < self.tasks.len()
            invariant
                i <= self.tasks@.len(),
                forall|k: int| 0 <= k < i ==> (#[trigger] self.tasks@[k]).id != task_id,
            decreases self.tasks@.len() - i,
        {
            if self.tasks[i].id == task_id {
                return Some(i);
            }
            i = i + 1;
        }
        None
    }

    /// The task with this id, or `None` when there is none (which is no error).
    pub fn get_task_by_id(&self, task_id: i64) -> (r: Result<Option<Task>, String>)
        requires
            self.wf(),
        ensures
            r == Ok::<Option<Task>, String>(task_with_id(self.task_rows(), task_id)),
    {
        match self.position_of(task_id) {
            Some(k) => {
                let t = self.tasks[k].duplicate();
                proof {
                    let c = choose|j: int| 0 <= j < self.tasks@.len() && (#[trigger] self.tasks@[j]).id == task_id;
                    if c != k {
                        if c < k { assert(self.tasks@[c].id != self.tasks@[k as int].id); }
                        else { assert(self.tasks@[k as int].id != self.tasks@[c].id); }
                    }
                }
                Ok(Some(t))
            },
            None => Ok(None),
        }
    }

    /// Puts `t` in place of the task at `k`, which has the same id and
    /// timestamp, so the listing order stands.
    fn replace_at(&mut self, k: usize, t: Task)
        requires
            old(self).wf(),
            k < old(self).tasks@.len(),
            t.id == old(self).tasks@[k as int].id,
            t.created_at@ == old(self).tasks@[k as int].created_at@,
        ensures
            final(self).wf(),
            final(self).tasks@ == old(self).tasks@.update(k as int, t),
            final(self).favourites@ == old(self).favourites@,
            final(self).last_task_id == old(self).last_task_id,
            final(self).last_favourite_id == old(self).last_favourite_id,
    {
        self.tasks.set(k, t);
        assert(forall|i: int| 0 <= i < self.tasks@.len() && i != k ==> self.tasks@[i] == old(self).tasks@[i]);
    }

    /// Files `t`, whose id no stored task has, at its place in the listing
    /// order.
    fn insert_new(&mut self, t: Task)
        requires
            old(self).wf(),
            0 < t.id,
            !has_task(old(self).tasks@, t.id),
        ensures
            newest_first(final(self).tasks@),
            task_ids_unique(final(self).tasks@),
            exists|p: int| 0 <= p <= old(self).tasks@.len() && final(self).tasks@ == old(self).tasks@.insert(p, t),
            final(self).favourites@ == old(self).favourites@,
            final(self).last_task_id == old(self).last_task_id,
            final(self).last_favourite_id == old(self).last_favourite_id,
    {
        let mut i: usize = 0;
        let mut placed = false;
        while !placed && i < self.tasks.len()
            invariant
                i <= self.tasks@.len(),
                self.tasks@ == old(self).tasks@,
                !has_task(self.tasks@, t.id),
                placed ==> i < self.tasks@.len() && listed_before(t, self.tasks@[i as int]),
                forall|j: int| 0 <= j < i ==> listed_before(#[trigger] self.tasks@[j], t),
            decreases self.tasks@.len() - i + (if placed { 0int } else { 1int }),
        {
            let x = &self.tasks[i];
            let first = is_after(t.created_at.as_str(), x.created_at.as_str()) || (t.created_at
                == x.created_at && t.id > x.id);
            if first {
                placed = true;
            } else {
                proof {
                    lemma_after_total(x.created_at@, t.created_at@);
                    assert(self.tasks@[i as int].id != t.id);
                }
                i = i + 1;
            }
        }
        let ghost before = self.tasks@;
        proof {
            if i < before.len() {
                assert forall|j: int| i < j < before.len() implies listed_before(t, #[trigger] before[j]) by {
                    lemma_listed_transitive(t, before[i as int], before[j]);
                }
            }
        }
        self.tasks.insert(i, t);
        let ghost after = self.tasks@;
        assert(after == before.insert(i as int, t));
        assert forall|a: int, b: int| 0 <= a < b < after.len() implies listed_before(#[trigger] after[a], #[trigger] after[b]) && after[a].id != after[b].id by {
            if b < i {
            } else if b == i {
                assert(before[a].id != t.id);
            } else if a < i {
                assert(after[b] == before[b - 1]);
                assert(before[b - 1].id != before[a].id);
                lemma_listed_transitive(before[a], t, before[b - 1]);
            } else if a == i {
                assert(after[b] == before[b - 1]);
                assert(before[b - 1].id != t.id);
            } else {
                assert(after[a] == before[a - 1]);
                assert(after[b] == before[b - 1]);
            }
        }
    }

    /// Creates a task named `name` with `initial_seconds` (zero when absent),
    /// timestamped at midnight of `date` (its date part, if it carries a time
    /// of day), under the next unused id, and returns
    /// it. Fails, changing nothing, once every positive `i64` id has been used.
    pub fn create_task(&mut self, name: String, date: String, initial_seconds: Option<i64>) -> (r: Result<Task, String>)
        requires
            old(self).wf(),
        ensures
            r is Err <==> old(self).last_task_id() == i64::MAX,
            final(self).wf(),
            final(self).favourite_rows() == old(self).favourite_rows(),
            final(self).last_favourite_id() == old(self).last_favourite_id(),
            match r {
                Ok(t) => task_created(*old(self), *final(self), t, name@, date@, initial_seconds),
                Err(_) => {
                    &&& final(self).task_rows() == old(self).task_rows()
                    &&& final(self).last_task_id() == old(self).last_task_id()
                },
            },
    {
        if self.last_task_id == i64::MAX {
            return Err("every task id has been used".to_string());
        }
        let id = self.last_task_id + 1;
        let seconds = match initial_seconds {
            Some(v) => v,
            None => 0,
        };
        let day = date_part(date.as_str());
        let created_at = midnight_of(day.as_str());
        let t = Task { id, name, total_seconds: seconds, created_at, note: None };
        let r = t.duplicate();
        assert(!has_task(self.tasks@, id));
        assert(r.created_at@ == date_of(date@) + midnight_suffix());
        assert(r.name@ == name@);
        self.insert_new(t);
        self.last_task_id = id;
        proof {
            let p = choose|p: int| 0 <= p <= old(self).tasks@.len() && self.tasks@ == old(self).tasks@.insert(p, r);
            assert forall|i: int| 0 <= i < self.tasks@.len() implies 0 < (#[trigger] self.tasks@[i]).id <= self.last_task_id by {
                if i < p {
                    assert(self.tasks@[i] == old(self).tasks@[i]);
                } else if i > p {
                    assert(self.tasks@[i] == old(self).tasks@[i - 1]);
                }
            }
            assert(self.task_rows() == old(self).task_rows().insert(p, r));
        }
        assert(r.total_seconds == match initial_seconds { Some(v) => v, None => 0 });
        assert(r.id == old(self).last_task_id() + 1);
        assert(task_created(*old(self), *self, r, name@, date@, initial_seconds));
        Ok(r)
    }

    /// Sets the accumulator of the task with this id to exactly `total_seconds`;
    /// nothing happens when no task has that id.
    pub fn update_task_time(&mut self, task_id: i64, total_seconds: i64) -> (r: Result<(), String>)
        requires
            old(self).wf(),
        ensures
            r is Ok,
            final(self).wf(),
            final(self).task_rows() == with_total(old(self).task_rows(), task_id, total_seconds),
            final(self).favourite_rows() == old(self).favourite_rows(),
            final(self).last_task_id() == old(self).last_task_id(),
            final(self).last_favourite_id() == old(self).last_favourite_id(),
    {
        match self.position_of(task_id) {
            Some(k) => {
                let old_t = self.tasks[k].duplicate();
                let t = Task { total_seconds, ..old_t };
                let ghost before = self.tasks@;
                self.replace_at(k, t);
                assert(self.tasks@ =~= with_total(before, task_id, total_seconds)) by {
                    assert forall|i: int| 0 <= i < before.len() && i != k implies before[i].id != task_id by {
                        if i < k { assert(before[i].id != before[k as int].id); }
                        else { assert(before[k as int].id != before[i].id); }
                    }
                }
            },
            None => {
                assert(self.tasks@ =~= with_total(self.tasks@, task_id, total_seconds));
            },
        }
        Ok(())
    }

    /// Adds `delta` (of either sign) to the accumulator of the task with this
    /// id. Fails, changing nothing, when the sum leaves the range of `i64`;
    /// nothing happens when no task has that id.
    fn apply_delta(&mut self, task_id: i64, delta: i64) -> (r: Result<(), String>)
        requires
            old(self).wf(),
        ensures
            r is Err <==> delta_overflows(old(self).task_rows(), task_id, delta),
            final(self).wf(),
            r is Ok ==> final(self).task_rows() == with_delta(old(self).task_rows(), task_id, delta),
            r is Err ==> final(self).task_rows() == old(self).task_rows(),
            final(self).favourite_rows() == old(self).favourite_rows(),
            final(self).last_task_id() == old(self).last_task_id(),
            final(self).last_favourite_id() == old(self).last_favourite_id(),
    {
        match self.position_of(task_id) {
            Some(k) => {
                let ghost before = self.tasks@;
                proof {
                    assert forall|i: int| 0 <= i < before.len() && i != k implies before[i].id != task_id by {
                        if i < k { assert(before[i].id != before[k as int].id); }
                        else { assert(before[k as int].id != before[i].id); }
                    }
                }
                match self.tasks[k].total_seconds.checked_add(delta) {
                    Some(sum) => {
                        let old_t = self.tasks[k].duplicate();
                        let t = Task { total_seconds: sum, ..old_t };
                        self.replace_at(k, t);
                        assert(self.tasks@ =~= with_delta(before, task_id, delta));
                        Ok(())
                    },
                    None => {
                        Err("the task's total would leave the range of a 64-bit integer".to_string())
                    },
                }
            },
            None => {
                assert(self.tasks@ =~= with_delta(self.tasks@, task_id, delta));
                Ok(())
            },
        }
    }

    /// Adds `seconds_to_add` to the accumulator of the task with this id.
    /// Fails, changing nothing, when the sum leaves the range of `i64`;
    /// nothing happens when no task has that id.
    pub fn add_time_to_task(&mut self, task_id: i64, seconds_to_add: i64) -> (r: Result<(), String>)
        requires
            old(self).wf(),
        ensures
            r is Err <==> delta_overflows(old(self).task_rows(), task_id, seconds_to_add),
            final(self).wf(),
            r is Ok ==> final(self).task_rows() == with_delta(old(self).task_rows(), task_id, seconds_to_add),
            r is Err ==> final(self).task_rows() == old(self).task_rows(),
            final(self).favourite_rows() == old(self).favourite_rows(),
            final(self).last_task_id() == old(self).last_task_id(),
            final(self).last_favourite_id() == old(self).last_favourite_id(),
    {
        self.apply_delta(task_id, seconds_to_add)
    }

    /// Adds the signed `seconds_to_adjust` to the accumulator of the task with
    /// this id: the same operation as `add_time_to_task`.
    pub fn adjust_task_time(&mut self, task_id: i64, seconds_to_adjust: i64) -> (r: Result<(), String>)
        requires
            old(self).wf(),
        ensures
            r is Err <==> delta_overflows(old(self).task_rows(), task_id, seconds_to_adjust),
            final(self).wf(),
            r is Ok ==> final(self).task_rows() == with_delta(old(self).task_rows(), task_id, seconds_to_adjust),
            r is Err ==> final(self).task_rows() == old(self).task_rows(),
            final(self).favourite_rows() == old(self).favourite_rows(),
            final(self).last_task_id() == old(self).last_task_id(),
            final(self).last_favourite_id() == old(self).last_favourite_id(),
    {
        self.apply_delta(task_id, seconds_to_adjust)
    }

    /// Renames the task with this id; nothing happens when no task has it.
    pub fn update_task_name(&mut self, task_id: i64, new_name: String) -> (r: Result<(), String>)
        requires
            old(self).wf(),
        ensures
            r is Ok,
            final(self).wf(),
            final(self).task_rows() == with_name(old(self).task_rows(), task_id, new_name),
            final(self).favourite_rows() == old(self).favourite_rows(),
            final(self).last_task_id() == old(self).last_task_id(),
            final(self).last_favourite_id() == old(self).last_favourite_id(),
    {
        match self.position_of(task_id) {
            Some(k) => {
                let old_t = self.tasks[k].duplicate();
                let ghost name = new_name;
                let t = Task { name: new_name, ..old_t };
                let ghost before = self.tasks@;
                self.replace_at(k, t);
                assert(self.tasks@ =~= with_name(before, task_id, name)) by {
                    assert forall|i: int| 0 <= i < before.len() && i != k implies before[i].id != task_id by {
                        if i < k { assert(before[i].id != before[k as int].id); }
                        else { assert(before[k as int].id != before[i].id); }
                    }
                }
            },
            None => {
                assert(self.tasks@ =~= with_name(self.tasks@, task_id, new_name));
            },
        }
        Ok(())
    }

    /// Sets or clears the note of the task with this id; nothing happens when
    /// no task has it.
    pub fn update_task_note(&mut self, task_id: i64, note: Option<String>) -> (r: Result<(), String>)
        requires
            old(self).wf(),
        ensures
            r is Ok,
            final(self).wf(),
            final(self).task_rows() == with_note(old(self).task_rows(), task_id, note),
            final(self).favourite_rows() == old(self).favourite_rows(),
            final(self).last_task_id() == old(self).last_task_id(),
            final(self).last_favourite_id() == old(self).last_favourite_id(),
    {
        match self.position_of(task_id) {
            Some(k) => {
                let old_t = self.tasks[k].duplicate();
                let ghost n = note;
                let t = Task { note: note, ..old_t };
                let ghost before = self.tasks@;
                self.replace_at(k, t);
                assert(self.tasks@ =~= with_note(before, task_id, n)) by {
                    assert forall|i: int| 0 <= i < before.len() && i != k implies before[i].id != task_id by {
                        if i < k { assert(before[i].id != before[k as int].id); }
                        else { assert(before[k as int].id != before[i].id); }
                    }
                }
            },
            None => {
                assert(self.tasks@ =~= with_note(self.tasks@, task_id, note));
            },
        }
        Ok(())
    }

    /// Deletes the task with this id; nothing happens when no task has it.
    pub fn delete_task(&mut self, task_id: i64) -> (r: Result<(), String>)
        requires
            old(self).wf(),
        ensures
            r is Ok,
            final(self).wf(),
            task_removed(old(self).task_rows(), final(self).task_rows(), task_id),
            !has_task(final(self).task_rows(), task_id),
            final(self).favourite_rows() == old(self).favourite_rows(),
            final(self).last_task_id() == old(self).last_task_id(),
            final(self).last_favourite_id() == old(self).last_favourite_id(),
    {
        if let Some(k) = self.position_of(task_id) {
            let ghost before = self.tasks@;
            self.tasks.remove(k);
            assert(forall|i: int| 0 <= i < k ==> self.tasks@[i] == before[i]);
            assert(forall|i: int| k <= i < self.tasks@.len() ==> self.tasks@[i] == before[i + 1]);
            assert forall|i: int| 0 <= i < self.tasks@.len() implies (#[trigger] self.tasks@[i]).id != task_id by {
                if i < k { assert(before[i].id != before[k as int].id); }
                else { assert(before[k as int].id != before[i + 1].id); }
            }
            assert(before[k as int].id == task_id);
        }
        Ok(())
    }

    /// Up to `RECENT_NAME_LIMIT` distinct task names, most recently created
    /// first, for autocompletion.
    pub fn get_unique_task_names(&self) -> (r: Result<Vec<String>, String>)
        requires
            self.wf(),
        ensures
            match r {
                Ok(v) => {
                    &&& texts(v@) == recent_names(self.task_rows())
                    &&& v@.len() <= RECENT_NAME_LIMIT
                    &&& texts(v@).no_duplicates()
                },
                Err(_) => false,
            },
    {
        let mut out: Vec<String> = Vec::new();
        let mut i: usize = 0;
        assert(self.tasks@.take(0) =~= Seq::<Task>::empty());
        assert(texts(out@) =~= Seq::<Seq<char>>::empty());
        while i < self.tasks.len() && out.len() < RECENT_NAME_LIMIT
            invariant
                i <= self.tasks@.len(),
                out@.len() <= RECENT_NAME_LIMIT,
                texts(out@) == distinct_names(self.tasks@.take(i as int)),
            decreases self.tasks@.len() - i,
        {
            let name = &self.tasks[i].name;
            let mut seen = false;
            let mut j: usize = 0;
            while j < out.len() && !seen
                invariant
                    j <= out@.len(),
                    seen ==> texts(out@).contains(name@),
                    !seen ==> forall|k: int| 0 <= k < j ==> (#[trigger] out@[k])@ != name@,
                decreases out@.len() - j,
            {
                if out[j] == *name {
                    seen = true;
                    assert(texts(out@)[j as int] == name@);
                }
                j = j + 1;
            }
            proof {
                assert(self.tasks@.take(i + 1).drop_last() =~= self.tasks@.take(i as int));
                if !seen {
                    assert forall|k: int| 0 <= k < out@.len() implies texts(out@)[k] != name@ by {
                        assert(texts(out@)[k] == out@[k]@);
                    }
                }
            }
            if !seen {
                out.push(name.clone());
                assert(texts(out@) =~= distinct_names(self.tasks@.take(i as int)).push(name@));
            }
            i = i + 1;
        }
        proof {
            lemma_distinct_names_prefix(self.tasks@, i as int);
            lemma_distinct_names_unique(self.tasks@);
            let d = distinct_names(self.tasks@);
            if i == self.tasks@.len() {
                assert(self.tasks@.take(i as int) =~= self.tasks@);
            } else {
                assert(out@.len() == RECENT_NAME_LIMIT);
            }
            assert(texts(out@) == recent_names(self.tasks@));
            assert forall|a: int, b: int| 0 <= a < texts(out@).len() && 0 <= b < texts(out@).len() && a != b implies texts(out@)[a] != texts(out@)[b] by {
                if d.len() > RECENT_NAME_LIMIT {
                    assert(texts(out@)[a] == d[a]);
                    assert(texts(out@)[b] == d[b]);
                }
            }
        }
        Ok(out)
    }

    /// Every favourite, in the order they were created.
    pub fn get_favourites(&self) -> (r: Result<Vec<Favourite>, String>)
        requires
            self.wf(),
        ensures
            match r {
                Ok(v) => v@ == self.favourite_rows(),
                Err(_) => false,
            },
    {
        let mut out: Vec<Favourite> = Vec::new();
        let mut i: usize = 0;
        while i < self.favourites.len()
            invariant
                i <= self.favourites@.len(),
                out@ == self.favourites@.take(i as int),
            decreases self.favourites@.len() - i,
        {
            out.push(self.favourites[i].duplicate());
            assert(out@ =~= self.favourites@.take(i + 1));
            i = i + 1;
        }
        assert(self.favourites@.take(i as int) =~= self.favourites@);
        Ok(out)
    }

    /// Creates a favourite under the next unused id and returns that id.
    /// Fails, changing nothing, once every positive `i64` id has been used.
    pub fn create_favourite(&mut self, name: String, duration_seconds: i64) -> (r: Result<i64, String>)
        requires
            old(self).wf(),
        ensures
            r is Err <==> old(self).last_favourite_id() == i64::MAX,
            final(self).wf(),
            final(self).task_rows() == old(self).task_rows(),
            final(self).last_task_id() == old(self).last_task_id(),
            match r {
                Ok(id) => favourite_created(*old(self), *final(self), id, name, duration_seconds),
                Err(_) => {
                    &&& final(self).favourite_rows() == old(self).favourite_rows()
                    &&& final(self).last_favourite_id() == old(self).last_favourite_id()
                },
            },
    {
        if self.last_favourite_id == i64::MAX {
            return Err("every favourite id has been used".to_string());
        }
        let id = self.last_favourite_id + 1;
        self.favourites.push(Favourite { id, name, duration_seconds });
        self.last_favourite_id = id;
        Ok(id)
    }

    /// Deletes the favourite with this id; nothing happens when none has it.
    pub fn delete_favourite(&mut self, id: i64) -> (r: Result<(), String>)
        requires
            old(self).wf(),
        ensures
            r is Ok,
            final(self).wf(),
            favourite_removed(old(self).favourite_rows(), final(self).favourite_rows(), id),
            !has_favourite(final(self).favourite_rows(), id),
            final(self).task_rows() == old(self).task_rows(),
            final(self).last_task_id() == old(self).last_task_id(),
            final(self).last_favourite_id() == old(self).last_favourite_id(),
    {
        let mut i: usize = 0;
        while i < self.favourites.len()
            invariant
                i <= self.favourites@.len(),
                self.wf(),
                self.favourites@ == old(self).favourites@,
                self.tasks@ == old(self).tasks@,
                self.last_task_id == old(self).last_task_id,
                self.last_favourite_id == old(self).last_favourite_id,
                forall|k: int| 0 <= k < i ==> (#[trigger] self.favourites@[k]).id != id,
            decreases self.favourites@.len() - i,
        {
            if self.favourites[i].id == id {
                let ghost before = self.favourites@;
                self.favourites.remove(i);
                assert(forall|k: int| 0 <= k < i ==> self.favourites@[k] == before[k]);
                assert(forall|k: int| i <= k < self.favourites@.len() ==> self.favourites@[k] == before[k + 1]);
                assert forall|k: int| 0 <= k < self.favourites@.len() implies (#[trigger] self.favourites@[k]).id != id by {
                    if k >= i {
                        assert(before[i as int].id < before[k + 1].id);
                    } else {
                        assert(before[k].id < before[i as int].id);
                    }
                }
                assert forall|a: int, b: int| 0 <= a < b < self.favourites@.len() implies (#[trigger] self.favourites@[a]).id < (#[trigger] self.favourites@[b]).id by {
                    let a2 = if a < i { a } else { a + 1 };
                    let b2 = if b < i { b } else { b + 1 };
                    assert(before[a2].id < before[b2].id);
                }
                assert forall|k: int| 0 <= k < self.favourites@.len() implies 0 < (#[trigger] self.favourites@[k]).id <= self.last_favourite_id by {
                    let k2 = if k < i { k } else { k + 1 };
                    assert(before[k2] == self.favourites@[k]);
                }
                assert(before[i as int].id == id);
                return Ok(());
            }
            i = i + 1;
        }
        Ok(())
    }

    /// Files a task read back from storage. Fails, changing nothing, when its
    /// id is not positive or a stored task already has it.
    pub fn restore_task(&mut self, t: Task) -> (r: Result<(), String>)
        requires
            old(self).wf(),
        ensures
            r is Err <==> (t.id <= 0 || has_task(old(self).task_rows(), t.id)),
            final(self).wf(),
            final(self).favourite_rows() == old(self).favourite_rows(),
            final(self).last_favourite_id() == old(self).last_favourite_id(),
            r is Ok ==> exists|p: int| 0 <= p <= old(self).task_rows().len()
                && final(self).task_rows() == old(self).task_rows().insert(p, t),
            r is Ok ==> final(self).last_task_id() == if t.id > old(self).last_task_id() { t.id as int } else { old(self).last_task_id() },
            r is Err ==> final(self).task_rows() == old(self).task_rows() && final(self).last_task_id() == old(self).last_task_id(),
    {
        if t.id <= 0 {
            return Err("a stored task has an id that is not positive".to_string());
        }
        if self.position_of(t.id).is_some() {
            return Err("two stored tasks share an id".to_string());
        }
        let ghost tg = t;
        let id = t.id;
        self.insert_new(t);
        if id > self.last_task_id {
            self.last_task_id = id;
        }
        proof {
            let p = choose|p: int| 0 <= p <= old(self).tasks@.len() && self.tasks@ == old(self).tasks@.insert(p, tg);
            assert forall|i: int| 0 <= i < self.tasks@.len() implies 0 < (#[trigger] self.tasks@[i]).id <= self.last_task_id by {
                if i < p {
                    assert(self.tasks@[i] == old(self).tasks@[i]);
                } else if i > p {
                    assert(self.tasks@[i] == old(self).tasks@[i - 1]);
                }
            }
        }
        Ok(())
    }

    /// Files a favourite read back from storage, after those already filed.
    /// Fails, changing nothing, unless its id is larger than every id handed
    /// out so far.
    pub fn restore_favourite(&mut self, f: Favourite) -> (r: Result<(), String>)
        requires
            old(self).wf(),
        ensures
            r is Err <==> f.id <= old(self).last_favourite_id(),
            final(self).wf(),
            final(self).task_rows() == old(self).task_rows(),
            final(self).last_task_id() == old(self).last_task_id(),
            r is Ok ==> final(self).favourite_rows() == old(self).favourite_rows().push(f)
                && final(self).last_favourite_id() == f.id,
            r is Err ==> final(self).favourite_rows() == old(self).favourite_rows()
                && final(self).last_favourite_id() == old(self).last_favourite_id(),
    {
        if f.id <= self.last_favourite_id {
            return Err("stored favourites are not in increasing id order".to_string());
        }
        self.last_favourite_id = f.id;
        self.favourites.push(f);
        Ok(())
    }

    /// The tasks created on `date` (by the date part of their timestamp),
    /// newest first.
    pub fn get_tasks_for_date(&self, date: String) -> (r: Result<Vec<Task>, String>)
        requires
            self.wf(),
        ensures
            match r {
                Ok(v) => v@ == tasks_on(self.task_rows(), date@) && newest_first(v@),
                Err(_) => false,
            },
    {
        let mut out: Vec<Task> = Vec::new();
        let mut i: usize = 0;
        proof {
            reveal(Seq::filter);
            assert(self.tasks@.take(0).filter(falls_on(date@)) =~= Seq::<Task>::empty());
        }
        while i < self.tasks.len()
            invariant
                i <= self.tasks@.len(),
                out@ == self.tasks@.take(i as int).filter(falls_on(date@)),
            decreases self.tasks@.len() - i,
        {
            let day = date_part(self.tasks[i].created_at.as_str());
            let keep = day == date;
            if keep {
                out.push(self.tasks[i].duplicate());
            }
            proof {
                reveal(Seq::filter);
                assert(self.tasks@.take(i + 1).drop_last() =~= self.tasks@.take(i as int));
            }
            i = i + 1;
        }
        assert(self.tasks@.take(i as int) =~= self.tasks@);
        proof {
            lemma_filter_newest_first(self.tasks@, falls_on(date@));
        }
        Ok(out)
    }

    /// The tasks created today, by the machine's local date, newest first.
    /// Whatever the clock says, the result is the listing of one date.
    pub fn get_todays_tasks(&self) -> (r: Result<Vec<Task>, String>)
        requires
            self.wf(),
        ensures
            match r {
                Ok(v) => exists|d: Seq<char>| v@ == tasks_on(self.task_rows(), d),
                Err(_) => false,
            },
            match r {
                Ok(v) => newest_first(v@),
                Err(_) => false,
            },
    {
        let today = local_today();
        self.get_tasks_for_date(today)
    }

    /// The tasks whose creation date lies between `start_date` and `end_date`
    /// inclusive, newest first.
    pub fn get_tasks_in_range(&self, start_date: String, end_date: String) -> (r: Result<
        Vec<Task>,
        String,
    >)
        requires
            self.wf(),
        ensures
            match r {
                Ok(v) => v@ == tasks_between(self.task_rows(), start_date@, end_date@)
                    && newest_first(v@),
                Err(_) => false,
            },
    {
        let ghost p = falls_between(start_date@, end_date@);
        let mut out: Vec<Task> = Vec::new();
        let mut i: usize = 0;
        proof {
            reveal(Seq::filter);
            assert(self.tasks@.take(0).filter(p) =~= Seq::<Task>::empty());
        }
        while i < self.tasks.len()
            invariant
                i <= self.tasks@.len(),
                p == falls_between(start_date@, end_date@),
                out@ == self.tasks@.take(i as int).filter(p),
            decreases self.tasks@.len() - i,
        {
            let day = date_part(self.tasks[i].created_at.as_str());
            let keep = !is_after(start_date.as_str(), day.as_str()) && !is_after(
                day.as_str(),
                end_date.as_str(),
            );
            if keep {
                out.push(self.tasks[i].duplicate());
            }
            proof {
                reveal(Seq::filter);
                assert(self.tasks@.take(i + 1).drop_last() =~= self.tasks@.take(i as int));
            }
            i = i + 1;
        }
        assert(self.tasks@.take(i as int) =~= self.tasks@);
        proof {
            lemma_filter_newest_first(self.tasks@, p);
        }
        Ok(out)
    }
}

} // verus!
