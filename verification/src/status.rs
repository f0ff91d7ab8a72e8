//! What pueued's task list says about the queue.

use vstd::prelude::*;

use crate::exit_code::TaskResult;
use crate::text::same;

verus! {

/// What a task is doing.
#[derive(Debug, PartialEq, Eq)]
pub enum TaskStatus {
    /// Waiting, as pueued describes it.
    Queued(String),
    Running,
    Done(TaskResult),
    /// Anything else, as pueued describes it.
    Other(String),
}

/// A task as pueued lists it.
#[derive(Debug)]
pub struct Task {
    pub id: usize,
    pub group: String,
    pub label: Option<String>,
    pub command: String,
    pub path: String,
    pub status: TaskStatus,
    /// When it was created, in nanoseconds since 1970.
    pub created_at_ns: i64,
}

/// A task as it is shown.
#[derive(Debug)]
pub struct TaskView {
    pub id: usize,
    pub label: Option<String>,
    pub command: String,
    pub path: String,
}

/// The group's state.
#[derive(Debug)]
pub struct QueueSnapshot {
    pub running: Option<TaskView>,
    pub queued: Vec<TaskView>,
}

/// A task as it is shown.
pub open spec fn shown(t: Task) -> TaskView {
    TaskView { id: t.id, label: t.label, command: t.command, path: t.path }
}

/// Where a task of that id goes among tasks in the order of their ids: behind
/// those of the same id.
pub open spec fn slot(views: Seq<TaskView>, id: usize) -> nat
    decreases views.len(),
{
    if views.len() == 0 {
        0
    } else if views.last().id <= id {
        views.len()
    } else {
        slot(views.drop_last(), id)
    }
}

/// The queued tasks of `group` among the first `n`, in the order of their ids.
pub open spec fn queued_in(tasks: Seq<Task>, group: Seq<char>, n: nat) -> Seq<TaskView>
    decreases n,
{
    if n == 0 {
        Seq::empty()
    } else {
        let before = queued_in(tasks, group, (n - 1) as nat);
        let t = tasks[n - 1];
        if t.group@ == group && t.status is Queued {
            before.insert(slot(before, t.id) as int, shown(t))
        } else {
            before
        }
    }
}

/// The running task of `group` among the first `n`: the one of the greatest id.
pub open spec fn running_in(tasks: Seq<Task>, group: Seq<char>, n: nat) -> Option<TaskView>
    decreases n,
{
    if n == 0 {
        None
    } else {
        let before = running_in(tasks, group, (n - 1) as nat);
        let t = tasks[n - 1];
        if t.group@ == group && t.status is Running && (before is None || before->0.id <= t.id) {
            Some(shown(t))
        } else {
            before
        }
    }
}

/// How many of the first `n` tasks are queued in `group` ahead of `my_id`.
pub open spec fn ahead_in(tasks: Seq<Task>, my_id: usize, group: Seq<char>, n: nat) -> nat
    decreases n,
{
    if n == 0 {
        0
    } else {
        let t = tasks[n - 1];
        ahead_in(tasks, my_id, group, (n - 1) as nat) + if t.group@ == group && t.status is Queued
            && t.id < my_id {
            1nat
        } else {
            0nat
        }
    }
}

fn show(t: &Task) -> (r: TaskView)
    ensures
        r == shown(*t),
{
    TaskView {
        id: t.id,
        label: match &t.label {
            Some(label) => Some(label.clone()),
            None => None,
        },
        command: t.command.clone(),
        path: t.path.clone(),
    }
}

proof fn lemma_slot(views: Seq<TaskView>, id: usize, p: int)
    requires
        0 <= p <= views.len(),
        forall|j: int| p <= j < views.len() ==> (#[trigger] views[j]).id > id,
        p > 0 ==> views[p - 1].id <= id,
    ensures
        slot(views, id) == p,
    decreases views.len(),
{
    if views.len() > 0 && views.last().id > id {
        let t = views.drop_last();
        assert forall|j: int| p <= j < t.len() implies (#[trigger] t[j]).id > id by {
            assert(views[j].id > id);
        }
        if p > 0 {
            assert(t[p - 1] == views[p - 1]);
        }
        lemma_slot(t, id, p);
    }
}

impl QueueSnapshot {
    /// The running task and the queued ones of `group`.
    pub fn from_tasks(tasks: &[Task], group: &str) -> (r: Self)
        ensures
            r.running == running_in(tasks@, group@, tasks@.len()),
            r.queued@ == queued_in(tasks@, group@, tasks@.len()),
    {
        let mut running: Option<TaskView> = None;
        let mut queued: Vec<TaskView> = Vec::new();
        let mut i: usize = 0;
        while i < tasks.len()
            invariant
                i <= tasks@.len(),
                running == running_in(tasks@, group@, i as nat),
                queued@ == queued_in(tasks@, group@, i as nat),
            decreases tasks@.len() - i,
        {
            let t = &tasks[i];
            if same(t.group.as_str(), group) {
                match &t.status {
                    TaskStatus::Running => {
                        let newer = match &running {
                            Some(v) => v.id <= t.id,
                            None => true,
                        };
                        if newer {
                            running = Some(show(t));
                        }
                    },
                    TaskStatus::Queued(_) => {
                        let mut p: usize = queued.len();
                        while p > 0 && queued[p - 1].id > t.id
                            invariant
                                p <= queued@.len(),
                                forall|j: int|
                                    p <= j < queued@.len() ==> (#[trigger] queued@[j]).id > t.id,
                            decreases p,
                        {
                            p = p - 1;
                        }
                        proof {
                            lemma_slot(queued@, t.id, p as int);
                        }
                        queued.insert(p, show(t));
                    },
                    _ => {},
                }
            }
            i = i + 1;
        }
        QueueSnapshot { running, queued }
    }
}

/// The task of that id.
pub open spec fn task_of(tasks: Seq<Task>, id: usize) -> Option<Task>
    decreases tasks.len(),
{
    if tasks.len() == 0 {
        None
    } else if tasks[0].id == id {
        Some(tasks[0])
    } else {
        task_of(tasks.skip(1), id)
    }
}

/// The task of that id.
pub fn find_task(tasks: &[Task], id: usize) -> (r: Option<&Task>)
    ensures
        r is Some <==> task_of(tasks@, id) is Some,
        r matches Some(t) ==> task_of(tasks@, id) == Some(*t),
{
    let mut i: usize = 0;
    assert(tasks@.skip(0) =~= tasks@);
    while i < tasks.len()
        invariant
            i <= tasks@.len(),
            task_of(tasks@, id) == task_of(tasks@.skip(i as int), id),
        decreases tasks@.len() - i,
    {
        if tasks[i].id == id {
            return Some(&tasks[i]);
        }
        assert(tasks@.skip(i as int).skip(1) =~= tasks@.skip(i + 1));
        i = i + 1;
    }
    None
}

/// How many tasks are queued in `group` ahead of `my_id`.
pub fn count_ahead(tasks: &[Task], my_id: usize, group: &str) -> (r: usize)
    ensures
        r == ahead_in(tasks@, my_id, group@, tasks@.len()),
{
    let mut count: usize = 0;
    let mut i: usize = 0;
    while i < tasks.len()
        invariant
            i <= tasks@.len(),
            count <= i,
            count == ahead_in(tasks@, my_id, group@, i as nat),
        decreases tasks@.len() - i,
    {
        let t = &tasks[i];
        let queued = match &t.status {
            TaskStatus::Queued(_) => true,
            _ => false,
        };
        if same(t.group.as_str(), group) && queued && t.id < my_id {
            count = count + 1;
        }
        i = i + 1;
    }
    count
}

/// The queue is shown in the order of the ids.
pub proof fn law_the_queue_is_in_the_order_of_ids(tasks: Seq<Task>, group: Seq<char>, n: nat)
    requires
        n <= tasks.len(),
    ensures
        forall|i: int, j: int|
            0 <= i < j < queued_in(tasks, group, n).len() ==> (#[trigger] queued_in(
                tasks,
                group,
                n,
            )[i]).id <= (#[trigger] queued_in(tasks, group, n)[j]).id,
    decreases n,
{
    if n > 0 {
        law_the_queue_is_in_the_order_of_ids(tasks, group, (n - 1) as nat);
        let before = queued_in(tasks, group, (n - 1) as nat);
        let t = tasks[n - 1];
        let p = slot(before, t.id) as int;
        lemma_slot_bounds(before, t.id);
        let all = queued_in(tasks, group, n);
        if t.group@ == group && t.status is Queued {
            assert forall|i: int, j: int| 0 <= i < j < all.len() implies (#[trigger] all[i]).id <= (
            #[trigger] all[j]).id by {
                if i < p {
                    assert(all[i] == before[i]);
                } else if i > p {
                    assert(all[i] == before[i - 1]);
                }
                if j < p {
                    assert(all[j] == before[j]);
                } else if j > p {
                    assert(all[j] == before[j - 1]);
                }
                if p > 0 && i < p - 1 {
                    assert(before[i].id <= before[p - 1].id);
                }
            }
        }
    }
}

proof fn lemma_slot_bounds(views: Seq<TaskView>, id: usize)
    ensures
        slot(views, id) <= views.len(),
        forall|j: int| slot(views, id) <= j < views.len() ==> (#[trigger] views[j]).id > id,
        slot(views, id) > 0 ==> views[slot(views, id) - 1].id <= id,
    decreases views.len(),
{
    if views.len() > 0 && views.last().id > id {
        let t = views.drop_last();
        lemma_slot_bounds(t, id);
        assert forall|j: int| slot(views, id) <= j < views.len() implies (#[trigger] views[j]).id
            > id by {
            if j < t.len() {
                assert(t[j] == views[j]);
            }
        }
        if slot(views, id) > 0 {
            assert(t[slot(t, id) - 1] == views[slot(views, id) - 1]);
        }
    }
}

/// A task is found by its id: what is found is in the list and bears the id, and
/// nothing is found only where no task in the list does.
pub proof fn law_a_task_is_found_by_its_id(tasks: Seq<Task>, id: usize)
    ensures
        match task_of(tasks, id) {
            Some(t) => tasks.contains(t) && t.id == id,
            None => forall|i: int| 0 <= i < tasks.len() ==> (#[trigger] tasks[i]).id != id,
        },
    decreases tasks.len(),
{
    if tasks.len() > 0 {
        let rest = tasks.skip(1);
        law_a_task_is_found_by_its_id(rest, id);
        if tasks[0].id == id {
            assert(tasks.contains(tasks[0]));
        } else {
            match task_of(tasks, id) {
                Some(t) => {
                    let i = choose|i: int| 0 <= i < rest.len() && rest[i] == t;
                    assert(tasks[i + 1] == t);
                },
                None => {
                    assert forall|i: int| 0 <= i < tasks.len() implies (#[trigger] tasks[i]).id
                        != id by {
                        if i > 0 {
                            assert(rest[i - 1] == tasks[i]);
                        }
                    }
                },
            }
        }
    }
}

/// The queue shows the waiting tasks of its group, each as it is listed, and no
/// other.
pub proof fn law_the_queue_shows_who_waits(tasks: Seq<Task>, group: Seq<char>, n: nat, v: TaskView)
    requires
        n <= tasks.len(),
    ensures
        queued_in(tasks, group, n).contains(v) <==> exists|i: int|
            0 <= i < n && (#[trigger] tasks[i]).group@ == group && tasks[i].status is Queued
                && v.id == tasks[i].id && v.label == tasks[i].label && v.command
                == tasks[i].command && v.path == tasks[i].path,
    decreases n,
{
    if n > 0 {
        let m = (n - 1) as nat;
        law_the_queue_shows_who_waits(tasks, group, m, v);
        let before = queued_in(tasks, group, m);
        let all = queued_in(tasks, group, n);
        let t = tasks[n - 1];
        let p = slot(before, t.id) as int;
        lemma_slot_bounds(before, t.id);
        let waits = t.group@ == group && t.status is Queued;
        if all.contains(v) {
            let j = choose|j: int| 0 <= j < all.len() && all[j] == v;
            if waits && j == p {
                assert(tasks[n - 1].group@ == group);
            } else {
                let from = if waits && j > p {
                    j - 1
                } else {
                    j
                };
                assert(before[from] == v);
                assert(before.contains(v));
            }
        }
        if before.contains(v) {
            let j = choose|j: int| 0 <= j < before.len() && before[j] == v;
            let to = if waits && j >= p {
                j + 1
            } else {
                j
            };
            assert(all[to] == v);
        }
        if waits {
            assert(all[p] == shown(t));
        }
    }
}

/// As many wait ahead of a task as there are waiting tasks of its group with a
/// smaller id: two lists count together what each counts, and one task counts for
/// one exactly where it is such a task.
pub proof fn law_smaller_ids_wait_ahead(
    a: Seq<Task>,
    b: Seq<Task>,
    t: Task,
    my_id: usize,
    group: Seq<char>,
)
    ensures
        ahead_in(a + b, my_id, group, (a + b).len()) == ahead_in(a, my_id, group, a.len())
            + ahead_in(b, my_id, group, b.len()),
        ahead_in(seq![t], my_id, group, 1) == (if t.group@ == group && t.status is Queued && t.id
            < my_id {
            1nat
        } else {
            0nat
        }),
    decreases b.len(),
{
    reveal_with_fuel(ahead_in, 2);
    if b.len() == 0 {
        assert(a + b =~= a);
    } else {
        let c = b.drop_last();
        law_smaller_ids_wait_ahead(a, c, t, my_id, group);
        lemma_ahead_prefix(a + b, a + c, my_id, group, (a + c).len());
        lemma_ahead_prefix(b, c, my_id, group, c.len());
        assert((a + b)[(a + b).len() - 1] == b[b.len() - 1]);
    }
}

proof fn lemma_ahead_prefix(a: Seq<Task>, b: Seq<Task>, my_id: usize, group: Seq<char>, n: nat)
    requires
        n <= a.len(),
        n <= b.len(),
        forall|i: int| 0 <= i < n ==> a[i] == b[i],
    ensures
        ahead_in(a, my_id, group, n) == ahead_in(b, my_id, group, n),
    decreases n,
{
    if n > 0 {
        lemma_ahead_prefix(a, b, my_id, group, (n - 1) as nat);
    }
}

/// The task that is shown as running is one of the group that runs, the one with the
/// largest id; none is shown only where none runs.
pub proof fn law_the_latest_running_task_is_shown(tasks: Seq<Task>, group: Seq<char>, n: nat)
    requires
        n <= tasks.len(),
    ensures
        match running_in(tasks, group, n) {
            Some(v) => {
                &&& exists|i: int|
                    0 <= i < n && (#[trigger] tasks[i]).group@ == group && tasks[i].status is Running
                        && v == shown(tasks[i])
                &&& forall|i: int|
                    0 <= i < n && (#[trigger] tasks[i]).group@ == group && tasks[i].status is Running
                        ==> tasks[i].id <= v.id
            },
            None => forall|i: int|
                0 <= i < n && (#[trigger] tasks[i]).group@ == group ==> !(tasks[i].status
                    is Running),
        },
    decreases n,
{
    if n > 0 {
        law_the_latest_running_task_is_shown(tasks, group, (n - 1) as nat);
        let t = tasks[n - 1];
        let before = running_in(tasks, group, (n - 1) as nat);
        if running_in(tasks, group, n) == before && before is Some {
            let i = choose|i: int|
                0 <= i < n - 1 && (#[trigger] tasks[i]).group@ == group && tasks[i].status is Running
                    && before->0 == shown(tasks[i]);
            assert(tasks[i].group@ == group);
        }
    }
}

/// What is shown of a task is what is listed of it.
pub proof fn law_a_task_is_shown_as_listed(t: Task)
    ensures
        shown(t).id == t.id,
        shown(t).label == t.label,
        shown(t).command == t.command,
        shown(t).path == t.path,
{
}

} // verus!
