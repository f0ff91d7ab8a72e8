//! What a starting daemon does about the one before it.
//!
//! The tasks that the previous daemon left running are pueued's children and are
//! still on the machine. Their leases are taken back from the records it left,
//! checked against what pueued says is running. The new pool is seeded with the
//! tokens that they do not hold.

use vstd::prelude::*;
use vstd::string::*;

use crate::classify::Class;
use crate::exit_code::TaskResult;
use crate::status::{find_task, Task, TaskStatus};
use crate::text::{
    chars_of, copy, decimal, last_of, parse_number, quoted, same, signed, starts_with, text_of,
};

#[allow(unused_imports)]
use crate::status::{law_a_task_is_found_by_its_id, task_of};
#[allow(unused_imports)]
use crate::text::{
    after_last, begins, decimal_of, law_a_decimal_reads_back, lemma_after_last_is, lemma_decimal,
    maybe, number_in, quoted_text, signed_of, texts,
};

verus! {

/// One lease on record: enough to take it back after a restart, and to keep
/// reporting it.
#[derive(Debug)]
pub struct Record {
    pub id: u64,
    pub label: String,
    /// The command as it was asked for.
    pub argv: Vec<String>,
    pub class: Class,
    pub cores_held: u32,
    pub pueue_task_id: Option<usize>,
    pub started_at_unix_ms: u64,
    /// When its task was handed to pueued, which is on record before the task's
    /// id can be.
    pub submitted_at_unix_ms: Option<u64>,
    /// The fifo that its task was pointed at.
    pub fifo: Option<String>,
    /// Whether the lease is over and its task signalled, but not confirmed gone.
    pub killing: bool,
}

/// A record, mathematically.
#[verifier::ext_equal]
pub struct RecordView {
    pub id: u64,
    pub label: Seq<char>,
    pub argv: Seq<Seq<char>>,
    pub class: Class,
    pub cores_held: u32,
    pub pueue_task_id: Option<usize>,
    pub started_at_unix_ms: u64,
    pub submitted_at_unix_ms: Option<u64>,
    pub fifo: Option<Seq<char>>,
    pub killing: bool,
}

impl View for Record {
    type V = RecordView;

    open spec fn view(&self) -> RecordView {
        RecordView {
            id: self.id,
            label: self.label@,
            argv: texts(self.argv@),
            class: self.class,
            cores_held: self.cores_held,
            pueue_task_id: self.pueue_task_id,
            started_at_unix_ms: self.started_at_unix_ms,
            submitted_at_unix_ms: self.submitted_at_unix_ms,
            fifo: maybe(self.fifo),
            killing: self.killing,
        }
    }
}

/// The last millisecond whose nanoseconds can be told.
pub const LAST_MS: u64 = 9_223_372_036_854;

/// Whether `t` may be the task that a submission under `label`, sent at
/// `since_ns`, started: it carries the label, was created no earlier, is still
/// alive, and nothing accounts for it.
pub open spec fn could_be(t: Task, label: Seq<char>, since_ns: i64, claimed: Seq<usize>) -> bool {
    &&& t.label is Some
    &&& t.label->0@ == label
    &&& t.created_at_ns >= since_ns
    &&& !claimed.contains(t.id)
    &&& !(t.status is Done)
}

/// The first task that a submission may have started.
pub open spec fn orphan_of(
    tasks: Seq<Task>,
    label: Seq<char>,
    since_ns: i64,
    claimed: Seq<usize>,
) -> Option<usize>
    decreases tasks.len(),
{
    if tasks.len() == 0 {
        None
    } else if could_be(tasks[0], label, since_ns, claimed) {
        Some(tasks[0].id)
    } else {
        orphan_of(tasks.skip(1), label, since_ns, claimed)
    }
}

fn listed(ids: &[usize], id: usize) -> (r: bool)
    ensures
        r == ids@.contains(id),
{
    let mut i: usize = 0;
    while i < ids.len()
        invariant
            i <= ids@.len(),
            forall|j: int| 0 <= j < i ==> (#[trigger] ids@[j]) != id,
        decreases ids@.len() - i,
    {
        if ids[i] == id {
            assert(ids@[i as int] == id);
            return true;
        }
        i = i + 1;
    }
    false
}

/// The task that an unanswered submission may have started. Any other task is
/// somebody's and is left alone.
pub fn orphan(tasks: &[Task], label: &str, since_ns: i64, claimed: &[usize]) -> (r: Option<usize>)
    ensures
        r == orphan_of(tasks@, label@, since_ns, claimed@),
{
    let mut i: usize = 0;
    assert(tasks@.skip(0) =~= tasks@);
    while i < tasks.len()
        invariant
            i <= tasks@.len(),
            orphan_of(tasks@, label@, since_ns, claimed@) == orphan_of(
                tasks@.skip(i as int),
                label@,
                since_ns,
                claimed@,
            ),
        decreases tasks@.len() - i,
    {
        let t = &tasks[i];
        let named = match &t.label {
            Some(name) => same(name.as_str(), label),
            None => false,
        };
        let done = match &t.status {
            TaskStatus::Done(_) => true,
            _ => false,
        };
        if named && t.created_at_ns >= since_ns && !done && !listed(claimed, t.id) {
            return Some(t.id);
        }
        assert(tasks@.skip(i as int).skip(1) =~= tasks@.skip(i + 1));
        i = i + 1;
    }
    None
}

/// How a result is described.
pub open spec fn result_text(result: TaskResult) -> Seq<char> {
    match result {
        TaskResult::Success => "Success"@,
        TaskResult::Failed(code) => "Failed("@ + signed_of(code as int) + ")"@,
        TaskResult::FailedToSpawn(why) => "FailedToSpawn("@ + quoted_text(why@) + ")"@,
        TaskResult::Killed => "Killed"@,
        TaskResult::Errored => "Errored"@,
        TaskResult::DependencyFailed => "DependencyFailed"@,
    }
}

fn describe(result: &TaskResult) -> (r: String)
    ensures
        r@ == result_text(*result),
{
    match result {
        TaskResult::Success => copy("Success"),
        TaskResult::Failed(code) => {
            let mut out = copy("Failed(");
            out.append(signed(*code).as_str());
            out.append(")");
            out
        },
        TaskResult::FailedToSpawn(why) => {
            let mut out = copy("FailedToSpawn(");
            out.append(quoted(why.as_str()).as_str());
            out.append(")");
            out
        },
        TaskResult::Killed => copy("Killed"),
        TaskResult::Errored => copy("Errored"),
        TaskResult::DependencyFailed => copy("DependencyFailed"),
    }
}

/// What becomes of a record.
pub enum Fate {
    /// The lease is taken back, on the pueue task of that id.
    Adopt(usize),
    /// The teardown is seen through.
    Resume,
    /// It is over, for this reason.
    Drop(Seq<char>),
}

/// `pueue task <id>` followed by `rest`.
pub open spec fn task_line(id: usize, rest: Seq<char>) -> Seq<char> {
    "pueue task "@ + decimal_of(id as nat) + rest
}

/// What becomes of a record, by pueued's task list and the tasks that are
/// accounted for already.
pub open spec fn fate(record: Record, tasks: Seq<Task>, claimed: Seq<usize>) -> Fate {
    match record.pueue_task_id {
        Some(id) => match task_of(tasks, id) {
            None => Fate::Drop(task_line(id, " is gone"@)),
            Some(t) => match t.status {
                TaskStatus::Running => if record.killing {
                    Fate::Resume
                } else {
                    Fate::Adopt(id)
                },
                TaskStatus::Done(result) => if record.killing {
                    Fate::Drop(
                        task_line(id, " was torn down while no daemon was watching"@),
                    )
                } else {
                    Fate::Drop(
                        task_line(
                            id,
                            " finished ("@ + result_text(result)
                                + ") while no daemon was watching; its exit code reached nobody"@,
                        ),
                    )
                },
                TaskStatus::Queued(what) | TaskStatus::Other(what) => Fate::Drop(
                    task_line(id, " is "@ + what@ + ", not running"@),
                ),
            },
        },
        None => match record.submitted_at_unix_ms {
            None => Fate::Drop("it was never admitted, and its client went with the daemon"@),
            Some(at) => if at > LAST_MS {
                Fate::Drop("its submission never reached pueued"@)
            } else {
                match orphan_of(tasks, record.label@, (at * 1_000_000) as i64, claimed) {
                    Some(id) => Fate::Adopt(id),
                    None => Fate::Drop("its submission never reached pueued"@),
                }
            },
        },
    }
}

/// The records, sorted by what becomes of them.
#[derive(Debug)]
pub struct Reconciled {
    /// The leases taken back.
    pub adopted: Vec<Record>,
    /// The teardowns to see through.
    pub killing: Vec<Record>,
    /// What is over, and why.
    pub dropped: Vec<(Record, String)>,
}

/// The same, mathematically.
#[verifier::ext_equal]
pub struct Sorted {
    pub adopted: Seq<Record>,
    pub killing: Seq<Record>,
    pub dropped: Seq<(Record, Seq<char>)>,
    /// The tasks that are accounted for.
    pub claimed: Seq<usize>,
}

/// The records with the reasons as text.
pub open spec fn reasons(s: Seq<(Record, String)>) -> Seq<(Record, Seq<char>)> {
    s.map_values(|p: (Record, String)| (p.0, p.1@))
}

/// The tasks that the first `n` records name.
pub open spec fn named(records: Seq<Record>, n: nat) -> Seq<usize>
    decreases n,
{
    if n == 0 {
        Seq::empty()
    } else {
        let before = named(records, (n - 1) as nat);
        match records[n - 1].pueue_task_id {
            Some(id) => before.push(id),
            None => before,
        }
    }
}

/// The first `n` records sorted. A submission that was matched with a task
/// accounts for it from then on.
pub open spec fn sorted(records: Seq<Record>, tasks: Seq<Task>, n: nat) -> Sorted
    decreases n,
{
    if n == 0 {
        Sorted {
            adopted: Seq::empty(),
            killing: Seq::empty(),
            dropped: Seq::empty(),
            claimed: named(records, records.len()),
        }
    } else {
        let before = sorted(records, tasks, (n - 1) as nat);
        let record = records[n - 1];
        match fate(record, tasks, before.claimed) {
            Fate::Adopt(id) => Sorted {
                adopted: before.adopted.push(Record { pueue_task_id: Some(id), ..record }),
                claimed: before.claimed.push(id),
                ..before
            },
            Fate::Resume => Sorted { killing: before.killing.push(record), ..before },
            Fate::Drop(reason) => Sorted { dropped: before.dropped.push((record, reason)), ..before },
        }
    }
}

fn about_task(id: usize, rest: &str) -> (r: String)
    ensures
        r@ == task_line(id, rest@),
{
    let mut out = copy("pueue task ");
    out.append(decimal(id as u64).as_str());
    out.append(rest);
    out
}

/// What becomes of a record: the task it is taken back with, or the reason why
/// it is over; neither for a teardown to see through.
fn decide(record: &Record, tasks: &[Task], claimed: &[usize]) -> (r: Result<Option<usize>, String>)
    ensures
        match fate(*record, tasks@, claimed@) {
            Fate::Adopt(id) => r == Ok::<_, String>(Some(id)),
            Fate::Resume => r == Ok::<Option<usize>, String>(None),
            Fate::Drop(reason) => r is Err && r->Err_0@ == reason,
        },
{
    match record.pueue_task_id {
        Some(id) => match find_task(tasks, id) {
            None => Err(about_task(id, " is gone")),
            Some(t) => match &t.status {
                TaskStatus::Running => if record.killing {
                    Ok(None)
                } else {
                    Ok(Some(id))
                },
                TaskStatus::Done(result) => if record.killing {
                    Err(about_task(id, " was torn down while no daemon was watching"))
                } else {
                    let mut rest = copy(" finished (");
                    rest.append(describe(result).as_str());
                    rest.append(
                        ") while no daemon was watching; its exit code reached nobody",
                    );
                    Err(about_task(id, rest.as_str()))
                },
                TaskStatus::Queued(what) | TaskStatus::Other(what) => {
                    let mut rest = copy(" is ");
                    rest.append(what.as_str());
                    rest.append(", not running");
                    Err(about_task(id, rest.as_str()))
                },
            },
        },
        None => match record.submitted_at_unix_ms {
            None => Err(copy("it was never admitted, and its client went with the daemon")),
            Some(at) => {
                if at > LAST_MS {
                    return Err(copy("its submission never reached pueued"));
                }
                match orphan(tasks, record.label.as_str(), at as i64 * 1_000_000, claimed) {
                    Some(id) => Ok(Some(id)),
                    None => Err(copy("its submission never reached pueued")),
                }
            },
        },
    }
}

/// Keeps the records whose task pueued reports running: a lease is taken back, a
/// teardown is seen through. A submission whose answer never arrived is matched
/// with the task that it started, if there is one. Everything else is over.
pub fn reconcile(records: Vec<Record>, tasks: &[Task]) -> (r: Reconciled)
    ensures
        ({
            let s = sorted(records@, tasks@, records@.len());
            &&& r.adopted@ == s.adopted
            &&& r.killing@ == s.killing
            &&& reasons(r.dropped@) == s.dropped
        }),
{
    let ghost all = records@;
    let mut claimed: Vec<usize> = Vec::new();
    let mut i: usize = 0;
    while i < records.len()
        invariant
            i <= records@.len(),
            records@ == all,
            claimed@ == named(all, i as nat),
        decreases records@.len() - i,
    {
        if let Some(id) = records[i].pueue_task_id {
            claimed.push(id);
        }
        i = i + 1;
    }
    let mut adopted: Vec<Record> = Vec::new();
    let mut killing: Vec<Record> = Vec::new();
    let mut dropped: Vec<(Record, String)> = Vec::new();
    let ghost mut n: nat = 0;
    let mut rest = records;
    while rest.len() > 0
        invariant
            n <= all.len(),
            rest@ == all.skip(n as int),
            ({
                let s = sorted(all, tasks@, n);
                &&& adopted@ == s.adopted
                &&& killing@ == s.killing
                &&& reasons(dropped@) == s.dropped
                &&& claimed@ == s.claimed
            }),
        decreases rest@.len(),
    {
        let record = rest.remove(0);
        let ghost was = reasons(dropped@);
        match decide(&record, tasks, claimed.as_slice()) {
            Ok(Some(id)) => {
                adopted.push(Record { pueue_task_id: Some(id), ..record });
                claimed.push(id);
            },
            Ok(None) => {
                killing.push(record);
            },
            Err(reason) => {
                let ghost text = reason@;
                dropped.push((record, reason));
                assert(reasons(dropped@) =~= was.push((record, text)));
            },
        }
        proof {
            n = n + 1;
            assert(rest@ =~= all.skip(n as int));
        }
    }
    Reconciled { adopted, killing, dropped }
}

/// Tokens that the first `n` records hold.
pub open spec fn recorded(records: Seq<Record>, n: nat) -> nat
    decreases n,
{
    if n == 0 {
        0
    } else {
        recorded(records, (n - 1) as nat) + records[n - 1].cores_held as nat
    }
}

/// The smaller of two numbers.
pub open spec fn least(a: nat, b: nat) -> nat {
    if a <= b {
        a
    } else {
        b
    }
}

/// Tokens that records hold, `u32::MAX` at most.
pub fn cores_recorded(records: &[Record]) -> (r: u32)
    ensures
        r == least(recorded(records@, records@.len()), u32::MAX as nat),
{
    let mut total: u32 = 0;
    let mut i: usize = 0;
    while i < records.len()
        invariant
            i <= records@.len(),
            total == least(recorded(records@, i as nat), u32::MAX as nat),
        decreases records@.len() - i,
    {
        total = total.saturating_add(records[i].cores_held);
        i = i + 1;
    }
    total
}

/// How a new pool starts beside what is still held of the old one.
#[derive(Debug, Clone, Copy, PartialEq, Eq, Structural)]
pub struct Seeding {
    /// Tokens to take back out of the pool.
    pub take: u32,
    /// Tokens held beyond what the pool has room for. That many of the ones that
    /// come back are not put into it.
    pub debt: u32,
}

/// How a pool of `pool_size` starts beside `held` tokens that running tasks hold.
pub open spec fn seeded(held: nat, pool_size: nat) -> Seeding {
    let take = least(held, pool_size);
    Seeding { take: take as u32, debt: (held - take) as u32 }
}

/// How a pool of `pool_size` starts beside `held` tokens that running tasks hold.
pub fn seeding(held: u32, pool_size: u32) -> (r: Seeding)
    ensures
        r == seeded(held as nat, pool_size as nat),
        r.take == least(held as nat, pool_size as nat),
        r.take + r.debt == held,
{
    if held <= pool_size {
        Seeding { take: held, debt: 0 }
    } else {
        Seeding { take: pool_size, debt: held - pool_size }
    }
}

/// What a daemon starts from.
#[derive(Debug)]
pub struct Recovered {
    /// The leases taken back.
    pub adopted: Vec<Record>,
    /// The teardowns to see through.
    pub killing: Vec<Record>,
    /// What is over, and why.
    pub dropped: Vec<(Record, String)>,
    /// How the new pool starts.
    pub seeding: Seeding,
}

/// What a daemon on a pool of `pool_size` starts from, by the records of the one
/// before it and pueued's task list.
pub fn recover(records: Vec<Record>, tasks: &[Task], pool_size: u32) -> (r: Recovered)
    ensures
        ({
            let s = sorted(records@, tasks@, records@.len());
            let held = least(
                recorded(s.adopted, s.adopted.len()) + recorded(s.killing, s.killing.len()),
                u32::MAX as nat,
            );
            &&& r.adopted@ == s.adopted
            &&& r.killing@ == s.killing
            &&& reasons(r.dropped@) == s.dropped
            &&& r.seeding == seeded(held, pool_size as nat)
            &&& r.seeding.take == least(held, pool_size as nat)
            &&& r.seeding.take + r.seeding.debt == held
        }),
{
    let sorted = reconcile(records, tasks);
    let held = cores_recorded(sorted.adopted.as_slice()).saturating_add(
        cores_recorded(sorted.killing.as_slice()),
    );
    Recovered {
        adopted: sorted.adopted,
        killing: sorted.killing,
        dropped: sorted.dropped,
        seeding: seeding(held, pool_size),
    }
}

/// The fifos that records point at, in order, each as often as it is named.
pub open spec fn fifos(records: Seq<Record>, n: nat) -> Seq<Seq<char>>
    decreases n,
{
    if n == 0 {
        Seq::empty()
    } else {
        let before = fifos(records, (n - 1) as nat);
        match records[n - 1].fifo {
            Some(path) => before.push(path@),
            None => before,
        }
    }
}

/// Whether one of the records points at `path`.
pub fn referenced(records: &[Record], path: &str) -> (r: bool)
    ensures
        r == fifos(records@, records@.len()).contains(path@),
{
    let mut found = false;
    let mut i: usize = 0;
    while i < records.len()
        invariant
            i <= records@.len(),
            found == fifos(records@, i as nat).contains(path@),
        decreases records@.len() - i,
    {
        let ghost before = fifos(records@, i as nat);
        if let Some(fifo) = &records[i].fifo {
            let hit = same(fifo.as_str(), path);
            proof {
                let after = before.push(fifo@);
                assert(after.last() == fifo@);
                assert forall|j: int| 0 <= j < before.len() implies after[j] == before[j] by {}
                if before.contains(path@) {
                    let j = choose|j: int| 0 <= j < before.len() && before[j] == path@;
                    assert(after[j] == path@);
                }
            }
            found = found || hit;
        }
        i = i + 1;
    }
    found
}

/// A path without the slashes, and the `/.`s, that it ends in.
pub open spec fn trimmed(path: Seq<char>) -> Seq<char>
    decreases path.len(),
{
    if path.len() > 1 && path.last() == '/' {
        trimmed(path.drop_last())
    } else if path.len() > 2 && path.last() == '.' && path[path.len() - 2] == '/' {
        trimmed(path.take(path.len() - 2))
    } else {
        path
    }
}

/// The last component of a path; none for the root, the current directory and the
/// one above.
pub open spec fn file_name_of(path: Seq<char>) -> Option<Seq<char>> {
    let p = trimmed(path);
    let name = p.skip(after_last(p, '/') as int);
    if name == Seq::<char>::empty() || name == seq!['.'] || name == seq!['.', '.'] {
        None
    } else {
        Some(name)
    }
}

/// The last component of a path.
pub fn file_name(path: &str) -> (r: Option<String>)
    ensures
        maybe(r) == file_name_of(path@),
{
    let all = chars_of(path);
    let mut end: usize = all.len();
    assert(path@.take(end as int) =~= path@);
    loop
        invariant
            all@ == path@,
            end <= all@.len(),
            trimmed(path@) == trimmed(path@.take(end as int)),
        ensures
            end <= all@.len(),
            trimmed(path@) == path@.take(end as int),
        decreases end,
    {
        let ghost here = path@.take(end as int);
        if end > 1 && all[end - 1] == '/' {
            assert(here.drop_last() =~= path@.take(end - 1));
            end = end - 1;
        } else if end > 2 && all[end - 1] == '.' && all[end - 2] == '/' {
            assert(here.take(here.len() - 2) =~= path@.take(end - 2));
            end = end - 2;
        } else {
            break;
        }
    }
    let kept = vstd::slice::slice_subrange(all.as_slice(), 0, end);
    assert(kept@ =~= trimmed(path@));
    let start = last_of(kept, '/');
    let name = vstd::slice::slice_subrange(kept, start, kept.len());
    assert(name@ =~= kept@.skip(start as int));
    let len = name.len();
    let special = len == 0 || (len == 1 && name[0] == '.') || (len == 2 && name[0] == '.'
        && name[1] == '.');
    proof {
        let p = trimmed(path@);
        let n = p.skip(after_last(p, '/') as int);
        assert(n == name@);
        if len == 0 {
            assert(n =~= Seq::empty());
        }
        if len == 1 {
            assert(n == seq!['.'] <==> n[0] == '.') by {
                assert(n =~= seq![n[0]]);
            }
        }
        if len == 2 {
            assert(n == seq!['.', '.'] <==> n[0] == '.' && n[1] == '.') by {
                assert(n =~= seq![n[0], n[1]]);
                assert(seq!['.', '.'][1] == '.');
            }
        }
        assert(seq!['.'].len() == 1 && seq!['.', '.'].len() == 2);
    }
    if special {
        None
    } else {
        Some(text_of(name))
    }
}

/// The process that a fifo belongs to, by its name, `jobserver-<pid>`.
pub open spec fn pid_of(path: Seq<char>) -> Option<nat> {
    match file_name_of(path) {
        Some(name) => if begins(name, "jobserver-"@) {
            number_in(name.skip("jobserver-"@.len() as int), u32::MAX as nat)
        } else {
            None
        },
        None => None,
    }
}

/// The process that a fifo belongs to; none for any other file.
pub fn fifo_pid(path: &str) -> (r: Option<u32>)
    ensures
        r is Some <==> pid_of(path@) is Some,
        r matches Some(pid) ==> pid_of(path@) == Some(pid as nat),
{
    let name = match file_name(path) {
        Some(name) => name,
        None => {
            return None;
        },
    };
    proof {
        reveal_strlit("jobserver-");
    }
    if !starts_with(name.as_str(), "jobserver-") {
        return None;
    }
    let len = chars_of(name.as_str()).len();
    let digits = name.as_str().substring_char(10, len);
    assert(digits@ =~= name@.skip(10));
    match parse_number(digits, 0xffff_ffff) {
        Some(pid) => Some(pid as u32),
        None => None,
    }
}

/// The process to ask after before a fifo of `pid`'s is kept. There is none for
/// what is no process number, nor for our own: a fifo that bears it was there
/// before us, and numbers are used again.
pub fn process_to_ask(pid: u32, own: u32) -> (r: Option<i32>)
    ensures
        r == if 0 < pid <= i32::MAX && pid != own {
            Some(pid as i32)
        } else {
            None
        },
{
    if pid == 0 || pid > 0x7fff_ffff || pid == own {
        None
    } else {
        Some(pid as i32)
    }
}

/// Whether a file is a fifo that nothing needs any more: its daemon is gone and
/// no record points at it.
pub fn stale_fifo(path: &str, alive: bool, adopted: &[Record], killing: &[Record]) -> (r: bool)
    ensures
        r == (pid_of(path@) is Some && !alive && !fifos(adopted@, adopted@.len()).contains(path@)
            && !fifos(killing@, killing@.len()).contains(path@)),
{
    fifo_pid(path).is_some() && !alive && !referenced(adopted, path) && !referenced(killing, path)
}

/// The ids of records.
pub open spec fn ids(records: Seq<Record>) -> Seq<u64> {
    Seq::new(records.len(), |i: int| records[i].id)
}

/// The ids of what was dropped.
pub open spec fn dropped_ids(dropped: Seq<(Record, Seq<char>)>) -> Seq<u64> {
    Seq::new(dropped.len(), |i: int| dropped[i].0.id)
}

/// Every record is taken back, seen through or dropped, and none of them twice.
pub proof fn law_every_record_has_one_fate(records: Seq<Record>, tasks: Seq<Task>, n: nat)
    requires
        n <= records.len(),
    ensures
        ({
            let s = sorted(records, tasks, n);
            ids(s.adopted).to_multiset().add(ids(s.killing).to_multiset()).add(
                dropped_ids(s.dropped).to_multiset(),
            ) == ids(records.take(n as int)).to_multiset()
        }),
    decreases n,
{
    broadcast use vstd::seq_lib::group_to_multiset_ensures;

    let s = sorted(records, tasks, n);
    if n == 0 {
        assert(ids(s.adopted) =~= Seq::empty());
        assert(ids(s.killing) =~= Seq::empty());
        assert(dropped_ids(s.dropped) =~= Seq::empty());
        assert(ids(records.take(0)) =~= Seq::empty());
        assert(Seq::<u64>::empty().to_multiset() =~= vstd::multiset::Multiset::empty());
    } else {
        let before = sorted(records, tasks, (n - 1) as nat);
        let record = records[n - 1];
        law_every_record_has_one_fate(records, tasks, (n - 1) as nat);
        assert(ids(records.take(n as int)) =~= ids(records.take(n - 1)).push(record.id));
        match fate(record, tasks, before.claimed) {
            Fate::Adopt(_) => {
                assert(ids(s.adopted) =~= ids(before.adopted).push(record.id));
            },
            Fate::Resume => {
                assert(ids(s.killing) =~= ids(before.killing).push(record.id));
            },
            Fate::Drop(_) => {
                assert(dropped_ids(s.dropped) =~= dropped_ids(before.dropped).push(record.id));
            },
        }
    }
}

/// Whether pueued lists a task of that id that is not over.
pub open spec fn alive(tasks: Seq<Task>, id: usize) -> bool {
    exists|i: int|
        0 <= i < tasks.len() && (#[trigger] tasks[i]).id == id && !(tasks[i].status is Done)
}

proof fn lemma_task_of_alive(tasks: Seq<Task>, id: usize)
    requires
        task_of(tasks, id) is Some,
        !(task_of(tasks, id)->0.status is Done),
    ensures
        alive(tasks, id),
    decreases tasks.len(),
{
    if tasks[0].id != id {
        lemma_task_of_alive(tasks.skip(1), id);
        let i = choose|i: int|
            0 <= i < tasks.skip(1).len() && (#[trigger] tasks.skip(1)[i]).id == id && !(
            tasks.skip(1)[i].status is Done);
        assert(tasks[i + 1] == tasks.skip(1)[i]);
    } else {
        assert(tasks[0].id == id);
    }
}

/// What a submission may have started is alive, and nothing accounts for it.
pub proof fn lemma_orphan_alive(tasks: Seq<Task>, label: Seq<char>, since_ns: i64, claimed: Seq<usize>)
    requires
        orphan_of(tasks, label, since_ns, claimed) is Some,
    ensures
        alive(tasks, orphan_of(tasks, label, since_ns, claimed)->0),
        !claimed.contains(orphan_of(tasks, label, since_ns, claimed)->0),
    decreases tasks.len(),
{
    let id = orphan_of(tasks, label, since_ns, claimed)->0;
    if could_be(tasks[0], label, since_ns, claimed) {
        assert(tasks[0].id == id);
    } else {
        lemma_orphan_alive(tasks.skip(1), label, since_ns, claimed);
        let i = choose|i: int|
            0 <= i < tasks.skip(1).len() && (#[trigger] tasks.skip(1)[i]).id == id && !(
            tasks.skip(1)[i].status is Done);
        assert(tasks[i + 1] == tasks.skip(1)[i]);
    }
}

/// A lease is taken back only on a task that pueued lists and that is not over; a
/// teardown is seen through only while pueued reports its task running.
pub proof fn law_only_live_tasks_are_taken_back(records: Seq<Record>, tasks: Seq<Task>, n: nat)
    requires
        n <= records.len(),
    ensures
        ({
            let s = sorted(records, tasks, n);
            &&& forall|i: int|
                0 <= i < s.adopted.len() ==> ({
                    let id = (#[trigger] s.adopted[i]).pueue_task_id;
                    id is Some && alive(tasks, id->0)
                })
            &&& forall|i: int|
                0 <= i < s.killing.len() ==> ({
                    let id = (#[trigger] s.killing[i]).pueue_task_id;
                    id is Some && s.killing[i].killing && task_of(tasks, id->0) is Some
                        && task_of(tasks, id->0)->0.status is Running
                })
        }),
    decreases n,
{
    if n > 0 {
        law_only_live_tasks_are_taken_back(records, tasks, (n - 1) as nat);
        let before = sorted(records, tasks, (n - 1) as nat);
        let record = records[n - 1];
        match fate(record, tasks, before.claimed) {
            Fate::Adopt(id) => {
                match record.pueue_task_id {
                    Some(_) => {
                        lemma_task_of_alive(tasks, id);
                    },
                    None => {
                        lemma_orphan_alive(
                            tasks,
                            record.label@,
                            (record.submitted_at_unix_ms->0 * 1_000_000) as i64,
                            before.claimed,
                        );
                    },
                }
            },
            _ => {},
        }
    }
}

/// What running tasks hold of a pool and what it is seeded with add up to its
/// size, as long as it has room for what they hold; beyond that it starts empty.
pub proof fn law_a_seeded_pool_adds_up(held: u32, pool_size: u32, s: Seeding)
    requires
        s.take == least(held as nat, pool_size as nat),
        s.take + s.debt == held,
    ensures
        (pool_size - s.take) + held == pool_size + s.debt,
        s.debt > 0 ==> s.take == pool_size,
{
}

/// Whether no two records name one task.
pub open spec fn distinct_tasks(records: Seq<Record>) -> bool {
    forall|i: int, j: int|
        0 <= i < j < records.len() && (#[trigger] records[i]).pueue_task_id is Some
            ==> records[i].pueue_task_id != (#[trigger] records[j]).pueue_task_id
}

/// Whether no record of `a` names a task that one of `b` does.
pub open spec fn other_tasks(a: Seq<Record>, b: Seq<Record>) -> bool {
    forall|i: int, j: int|
        0 <= i < a.len() && 0 <= j < b.len() && (#[trigger] a[i]).pueue_task_id is Some
            ==> a[i].pueue_task_id != (#[trigger] b[j]).pueue_task_id
}

/// Whether a task is accounted for by the first `n` records: one of them names it, or
/// it is an orphan that none of them all does.
spec fn accounted(records: Seq<Record>, claimed: Seq<usize>, n: nat, r: Record) -> bool {
    &&& r.pueue_task_id is Some
    &&& claimed.contains(r.pueue_task_id->0)
    &&& (exists|i: int| 0 <= i < n && (#[trigger] records[i]).pueue_task_id == r.pueue_task_id)
        || !named(records, records.len()).contains(r.pueue_task_id->0)
}

proof fn lemma_named(records: Seq<Record>, i: int, n: nat)
    requires
        0 <= i < n <= records.len(),
        records[i].pueue_task_id is Some,
    ensures
        named(records, n).contains(records[i].pueue_task_id->0),
    decreases n,
{
    let before = named(records, (n - 1) as nat);
    let all = named(records, n);
    if i == n - 1 {
        assert(all[before.len() as int] == records[i].pueue_task_id->0);
    } else {
        lemma_named(records, i, (n - 1) as nat);
        let at = choose|at: int|
            0 <= at < before.len() && before[at] == records[i].pueue_task_id->0;
        assert(all[at] == before[at]);
    }
}

/// A restart takes each task over once: where no two records name one task, no two
/// leases taken back and no two teardowns have one, nor do a lease and a teardown.
pub proof fn law_each_task_is_taken_over_once(records: Seq<Record>, tasks: Seq<Task>, n: nat)
    requires
        n <= records.len(),
        distinct_tasks(records),
    ensures
        ({
            let s = sorted(records, tasks, n);
            &&& distinct_tasks(s.adopted)
            &&& distinct_tasks(s.killing)
            &&& other_tasks(s.adopted, s.killing)
        }),
{
    lemma_taken_over(records, tasks, n);
}

proof fn lemma_taken_over(records: Seq<Record>, tasks: Seq<Task>, n: nat)
    requires
        n <= records.len(),
        distinct_tasks(records),
    ensures
        ({
            let s = sorted(records, tasks, n);
            &&& distinct_tasks(s.adopted)
            &&& distinct_tasks(s.killing)
            &&& other_tasks(s.adopted, s.killing)
            &&& forall|t: usize|
                named(records, records.len()).contains(t) ==> #[trigger] s.claimed.contains(t)
            &&& forall|i: int|
                0 <= i < s.adopted.len() ==> accounted(
                    records,
                    s.claimed,
                    n,
                    #[trigger] s.adopted[i],
                )
            &&& forall|i: int|
                0 <= i < s.killing.len() ==> accounted(
                    records,
                    s.claimed,
                    n,
                    #[trigger] s.killing[i],
                )
        }),
    decreases n,
{
    if n > 0 {
        let m = (n - 1) as nat;
        lemma_taken_over(records, tasks, m);
        let before = sorted(records, tasks, m);
        let s = sorted(records, tasks, n);
        let record = records[m as int];
        let all = named(records, records.len());
        assert forall|r: Record| accounted(records, before.claimed, m, r) implies #[trigger] accounted(
            records,
            s.claimed,
            n,
            r,
        ) by {
            let at = choose|at: int|
                0 <= at < before.claimed.len() && before.claimed[at] == r.pueue_task_id->0;
            assert(s.claimed[at] == r.pueue_task_id->0);
        }
        assert forall|t: usize| all.contains(t) implies #[trigger] s.claimed.contains(t) by {
            assert(before.claimed.contains(t));
            let at = choose|at: int| 0 <= at < before.claimed.len() && before.claimed[at] == t;
            assert(s.claimed[at] == t);
        }
        if record.pueue_task_id is Some {
            lemma_named(records, m as int, records.len());
        }
        match fate(record, tasks, before.claimed) {
            Fate::Adopt(id) => {
                let r = Record { pueue_task_id: Some(id), ..record };
                assert(s.claimed[before.claimed.len() as int] == id);
                if record.pueue_task_id is None {
                    lemma_orphan_alive(
                        tasks,
                        record.label@,
                        (record.submitted_at_unix_ms->0 * 1_000_000) as i64,
                        before.claimed,
                    );
                    assert(!before.claimed.contains(id));
                    if all.contains(id) {
                        assert(before.claimed.contains(id));
                    }
                } else {
                    assert(records[m as int].pueue_task_id == r.pueue_task_id);
                }
                assert(accounted(records, s.claimed, n, r));
                assert forall|o: Record| #[trigger]
                    accounted(records, before.claimed, m, o) implies o.pueue_task_id != Some(
                    id,
                ) by {
                    lemma_accounted_other(records, tasks, m, o);
                }
                lemma_one_more(before.adopted, before.killing, r);
                assert forall|i: int| 0 <= i < s.adopted.len() implies accounted(
                    records,
                    s.claimed,
                    n,
                    #[trigger] s.adopted[i],
                ) by {
                    if i < before.adopted.len() {
                        assert(accounted(records, before.claimed, m, before.adopted[i]));
                    }
                }
                assert forall|i: int| 0 <= i < s.killing.len() implies accounted(
                    records,
                    s.claimed,
                    n,
                    #[trigger] s.killing[i],
                ) by {
                    assert(accounted(records, before.claimed, m, before.killing[i]));
                }
            },
            Fate::Resume => {
                assert(records[m as int].pueue_task_id == record.pueue_task_id);
                assert(accounted(records, s.claimed, n, record));
                assert forall|o: Record| #[trigger]
                    accounted(records, before.claimed, m, o) implies o.pueue_task_id
                    != record.pueue_task_id by {
                    lemma_accounted_other(records, tasks, m, o);
                }
                lemma_one_more(before.killing, before.adopted, record);
                assert forall|i: int| 0 <= i < s.killing.len() implies accounted(
                    records,
                    s.claimed,
                    n,
                    #[trigger] s.killing[i],
                ) by {
                    if i < before.killing.len() {
                        assert(accounted(records, before.claimed, m, before.killing[i]));
                    }
                }
                assert forall|i: int| 0 <= i < s.adopted.len() implies accounted(
                    records,
                    s.claimed,
                    n,
                    #[trigger] s.adopted[i],
                ) by {
                    assert(accounted(records, before.claimed, m, before.adopted[i]));
                }
            },
            Fate::Drop(_) => {
                assert forall|i: int| 0 <= i < s.adopted.len() implies accounted(
                    records,
                    s.claimed,
                    n,
                    #[trigger] s.adopted[i],
                ) by {
                    assert(accounted(records, before.claimed, m, before.adopted[i]));
                }
                assert forall|i: int| 0 <= i < s.killing.len() implies accounted(
                    records,
                    s.claimed,
                    n,
                    #[trigger] s.killing[i],
                ) by {
                    assert(accounted(records, before.claimed, m, before.killing[i]));
                }
            },
        }
    }
}

/// What earlier records account for is not what the next one names, nor an orphan that
/// is still free.
proof fn lemma_accounted_other(records: Seq<Record>, tasks: Seq<Task>, m: nat, o: Record)
    requires
        m < records.len(),
        distinct_tasks(records),
        accounted(records, sorted(records, tasks, m).claimed, m, o),
    ensures
        o.pueue_task_id != records[m as int].pueue_task_id,
        forall|t: usize|
            !#[trigger] sorted(records, tasks, m).claimed.contains(t) ==> o.pueue_task_id != Some(
                t,
            ),
{
    if records[m as int].pueue_task_id is Some {
        lemma_named(records, m as int, records.len());
        if exists|i: int| 0 <= i < m && (#[trigger] records[i]).pueue_task_id == o.pueue_task_id {
            let i = choose|i: int|
                0 <= i < m && (#[trigger] records[i]).pueue_task_id == o.pueue_task_id;
            assert(records[i].pueue_task_id != records[m as int].pueue_task_id);
        }
    }
}

proof fn lemma_one_more(a: Seq<Record>, b: Seq<Record>, r: Record)
    requires
        distinct_tasks(a),
        distinct_tasks(b),
        other_tasks(a, b) || other_tasks(b, a),
        forall|i: int| 0 <= i < a.len() ==> (#[trigger] a[i]).pueue_task_id != r.pueue_task_id,
        forall|i: int| 0 <= i < b.len() ==> (#[trigger] b[i]).pueue_task_id != r.pueue_task_id,
    ensures
        distinct_tasks(a.push(r)),
        other_tasks(a.push(r), b),
        other_tasks(b, a.push(r)),
{
}

/// Whether pueued lists each id once.
pub open spec fn one_each(tasks: Seq<Task>) -> bool {
    forall|i: int, j: int|
        0 <= i < j < tasks.len() ==> (#[trigger] tasks[i]).id != (#[trigger] tasks[j]).id
}

/// Where pueued lists each id once, a task is found at its place.
pub proof fn lemma_task_at(tasks: Seq<Task>, k: int)
    requires
        one_each(tasks),
        0 <= k < tasks.len(),
    ensures
        task_of(tasks, tasks[k].id) == Some(tasks[k]),
{
    law_a_task_is_found_by_its_id(tasks, tasks[k].id);
    let t = task_of(tasks, tasks[k].id)->0;
    let j = choose|j: int| 0 <= j < tasks.len() && tasks[j] == t;
    if j < k {
        assert(tasks[j].id != tasks[k].id);
    } else if k < j {
        assert(tasks[k].id != tasks[j].id);
    }
}

proof fn lemma_sorted_grows(records: Seq<Record>, tasks: Seq<Task>, m: nat, n: nat)
    requires
        m <= n <= records.len(),
    ensures
        forall|r: Record| #[trigger]
            sorted(records, tasks, m).adopted.contains(r) ==> sorted(
                records,
                tasks,
                n,
            ).adopted.contains(r),
        forall|r: Record| #[trigger]
            sorted(records, tasks, m).killing.contains(r) ==> sorted(
                records,
                tasks,
                n,
            ).killing.contains(r),
    decreases n,
{
    if m < n {
        lemma_sorted_grows(records, tasks, m, (n - 1) as nat);
        let before = sorted(records, tasks, (n - 1) as nat);
        let s = sorted(records, tasks, n);
        assert forall|r: Record| #[trigger]
            sorted(records, tasks, m).adopted.contains(r) implies s.adopted.contains(r) by {
            let i = choose|i: int| 0 <= i < before.adopted.len() && before.adopted[i] == r;
            assert(s.adopted[i] == r);
        }
        assert forall|r: Record| #[trigger]
            sorted(records, tasks, m).killing.contains(r) implies s.killing.contains(r) by {
            let i = choose|i: int| 0 <= i < before.killing.len() && before.killing[i] == r;
            assert(s.killing[i] == r);
        }
    }
}

/// A record whose task pueued reports running is kept, whatever else it says:
/// the lease is taken back as it was recorded, and a teardown is seen through.
pub proof fn law_a_running_task_is_kept(
    records: Seq<Record>,
    tasks: Seq<Task>,
    n: nat,
    i: int,
    k: int,
)
    requires
        one_each(tasks),
        0 <= i < n <= records.len(),
        0 <= k < tasks.len(),
        records[i].pueue_task_id == Some(tasks[k].id),
        tasks[k].status is Running,
    ensures
        !records[i].killing ==> sorted(records, tasks, n).adopted.contains(records[i]),
        records[i].killing ==> sorted(records, tasks, n).killing.contains(records[i]),
{
    lemma_task_at(tasks, k);
    let m = (i + 1) as nat;
    let before = sorted(records, tasks, i as nat);
    let s = sorted(records, tasks, m);
    let r = records[i];
    if r.killing {
        assert(s.killing[before.killing.len() as int] == r);
        assert(s.killing.contains(r));
    } else {
        assert(s.adopted[before.adopted.len() as int] == r);
        assert(s.adopted.contains(r));
    }
    lemma_sorted_grows(records, tasks, m, n);
}

/// What is dropped is one of the records, and its task does not run: it names
/// none, or pueued does not list it, or not as running.
pub proof fn law_only_what_does_not_run_is_dropped(records: Seq<Record>, tasks: Seq<Task>, n: nat)
    requires
        one_each(tasks),
        n <= records.len(),
    ensures
        forall|d: int|
            0 <= d < sorted(records, tasks, n).dropped.len() ==> {
                let r = (#[trigger] sorted(records, tasks, n).dropped[d]).0;
                &&& records.contains(r)
                &&& r.pueue_task_id matches Some(id) ==> forall|k: int|
                    0 <= k < tasks.len() && (#[trigger] tasks[k]).id == id ==> !(
                    tasks[k].status is Running)
            },
    decreases n,
{
    if n > 0 {
        law_only_what_does_not_run_is_dropped(records, tasks, (n - 1) as nat);
        let before = sorted(records, tasks, (n - 1) as nat);
        let s = sorted(records, tasks, n);
        let last = records[n - 1];
        assert forall|d: int| 0 <= d < s.dropped.len() implies {
            let r = (#[trigger] s.dropped[d]).0;
            &&& records.contains(r)
            &&& r.pueue_task_id matches Some(id) ==> forall|k: int|
                0 <= k < tasks.len() && (#[trigger] tasks[k]).id == id ==> !(
                tasks[k].status is Running)
        } by {
            if d < before.dropped.len() {
                assert(s.dropped[d] == before.dropped[d]);
            } else {
                assert(s.dropped[d].0 == last);
                assert(records[n - 1] == last);
                if let Some(id) = last.pueue_task_id {
                    assert forall|k: int| 0 <= k < tasks.len() && (#[trigger] tasks[k]).id
                        == id implies !(tasks[k].status is Running) by {
                        lemma_task_at(tasks, k);
                    }
                }
            }
        }
    }
}

/// What is taken back is a record as it was, but for the task of one that names
/// none; and a record that is marked for teardown is never taken back on the
/// task it names.
pub proof fn law_a_lease_is_taken_back_as_recorded(records: Seq<Record>, tasks: Seq<Task>, n: nat)
    requires
        n <= records.len(),
    ensures
        forall|a: int|
            0 <= a < sorted(records, tasks, n).adopted.len() ==> exists|i: int|
                0 <= i < n && taken_back(
                    #[trigger] records[i],
                    #[trigger] sorted(records, tasks, n).adopted[a],
                ),
        forall|r: Record| #[trigger]
            sorted(records, tasks, n).killing.contains(r) ==> records.contains(r) && r.killing,
    decreases n,
{
    if n > 0 {
        law_a_lease_is_taken_back_as_recorded(records, tasks, (n - 1) as nat);
        let before = sorted(records, tasks, (n - 1) as nat);
        let s = sorted(records, tasks, n);
        assert forall|a: int| 0 <= a < s.adopted.len() implies exists|i: int|
            0 <= i < n && taken_back(#[trigger] records[i], #[trigger] s.adopted[a]) by {
            if a < before.adopted.len() {
                assert(s.adopted[a] == before.adopted[a]);
                let i = choose|i: int|
                    0 <= i < n - 1 && taken_back(#[trigger] records[i], before.adopted[a]);
                assert(taken_back(records[i], s.adopted[a]));
            } else {
                assert(taken_back(records[n - 1], s.adopted[a]));
            }
        }
        assert forall|r: Record| #[trigger] s.killing.contains(r) implies records.contains(r)
            && r.killing by {
            let i = choose|i: int| 0 <= i < s.killing.len() && s.killing[i] == r;
            if i < before.killing.len() {
                assert(before.killing[i] == r);
                assert(before.killing.contains(r));
            } else {
                assert(records[n - 1] == r);
            }
        }
    }
}

/// Whether `taken` is the lease of `record`: the same in everything but the task
/// where the record names none.
pub open spec fn taken_back(record: Record, taken: Record) -> bool {
    &&& taken.id == record.id
    &&& taken.label == record.label
    &&& taken.argv == record.argv
    &&& taken.class == record.class
    &&& taken.cores_held == record.cores_held
    &&& taken.started_at_unix_ms == record.started_at_unix_ms
    &&& taken.submitted_at_unix_ms == record.submitted_at_unix_ms
    &&& taken.fifo == record.fifo
    &&& taken.killing == record.killing
    &&& taken.pueue_task_id is Some
    &&& record.pueue_task_id is Some ==> taken.pueue_task_id == record.pueue_task_id
        && !record.killing
    &&& record.pueue_task_id is None ==> record.submitted_at_unix_ms is Some
}

/// Whether `t` carries `label`, was created at `since_ns` or later, is not over
/// and is none of `claimed`.
pub open spec fn started_under(
    t: Task,
    label: Seq<char>,
    since_ns: i64,
    claimed: Seq<usize>,
) -> bool {
    maybe(t.label) == Some(label) && t.created_at_ns >= since_ns && !(t.status is Done)
        && !claimed.contains(t.id)
}

/// The task that an unanswered submission is matched with is the first in the
/// list that carries its label, was created no earlier than it was sent, is not
/// over, and that nothing accounts for; there is none only where no task is all
/// of that.
pub proof fn law_a_submission_is_matched_with_its_own_task(
    tasks: Seq<Task>,
    label: Seq<char>,
    since_ns: i64,
    claimed: Seq<usize>,
)
    ensures
        match orphan_of(tasks, label, since_ns, claimed) {
            Some(id) => exists|k: int|
                0 <= k < tasks.len() && (#[trigger] tasks[k]).id == id && started_under(
                    tasks[k],
                    label,
                    since_ns,
                    claimed,
                ) && forall|j: int|
                    0 <= j < k ==> !started_under(#[trigger] tasks[j], label, since_ns, claimed),
            None => forall|k: int|
                0 <= k < tasks.len() ==> !started_under(
                    #[trigger] tasks[k],
                    label,
                    since_ns,
                    claimed,
                ),
        },
    decreases tasks.len(),
{
    if tasks.len() > 0 {
        let rest = tasks.skip(1);
        law_a_submission_is_matched_with_its_own_task(rest, label, since_ns, claimed);
        if could_be(tasks[0], label, since_ns, claimed) {
            assert(started_under(tasks[0], label, since_ns, claimed));
        } else {
            assert(!started_under(tasks[0], label, since_ns, claimed));
            match orphan_of(tasks, label, since_ns, claimed) {
                Some(id) => {
                    let k = choose|k: int|
                        0 <= k < rest.len() && (#[trigger] rest[k]).id == id && started_under(
                            rest[k],
                            label,
                            since_ns,
                            claimed,
                        ) && forall|j: int|
                            0 <= j < k ==> !started_under(
                                #[trigger] rest[j],
                                label,
                                since_ns,
                                claimed,
                            );
                    assert(tasks[k + 1] == rest[k]);
                    assert forall|j: int| 0 <= j < k + 1 implies !started_under(
                        #[trigger] tasks[j],
                        label,
                        since_ns,
                        claimed,
                    ) by {
                        if j > 0 {
                            assert(rest[j - 1] == tasks[j]);
                        }
                    }
                },
                None => {
                    assert forall|k: int| 0 <= k < tasks.len() implies !started_under(
                        #[trigger] tasks[k],
                        label,
                        since_ns,
                        claimed,
                    ) by {
                        if k > 0 {
                            assert(rest[k - 1] == tasks[k]);
                        }
                    }
                },
            }
        }
    }
}

/// A record of a submission that nothing answered is taken back where pueued
/// lists a task that can only be its own: one under its label, created at or
/// after the millisecond it was sent in, not over, and that no earlier record
/// was given and none names.
pub proof fn law_an_unanswered_submission_is_taken_back(
    records: Seq<Record>,
    tasks: Seq<Task>,
    n: nat,
    i: int,
    k: int,
)
    requires
        0 <= i < n <= records.len(),
        records[i].pueue_task_id is None,
        records[i].submitted_at_unix_ms is Some,
        records[i].submitted_at_unix_ms->0 <= 9_223_372_036_854,
        0 <= k < tasks.len(),
        maybe(tasks[k].label) == Some(records[i].label@),
        tasks[k].created_at_ns >= records[i].submitted_at_unix_ms->0 * 1_000_000,
        !(tasks[k].status is Done),
        !sorted(records, tasks, i as nat).claimed.contains(tasks[k].id),
    ensures
        exists|a: int|
            0 <= a < sorted(records, tasks, n).adopted.len() && taken_back(
                records[i],
                #[trigger] sorted(records, tasks, n).adopted[a],
            ),
{
    let before = sorted(records, tasks, i as nat);
    let s = sorted(records, tasks, (i + 1) as nat);
    let since = (records[i].submitted_at_unix_ms->0 * 1_000_000) as i64;
    law_a_submission_is_matched_with_its_own_task(
        tasks,
        records[i].label@,
        since,
        before.claimed,
    );
    assert(started_under(tasks[k], records[i].label@, since, before.claimed));
    let last = s.adopted[before.adopted.len() as int];
    assert(taken_back(records[i], last));
    assert(s.adopted.contains(last));
    lemma_sorted_grows(records, tasks, (i + 1) as nat, n);
    let a = choose|a: int|
        0 <= a < sorted(records, tasks, n).adopted.len() && sorted(records, tasks, n).adopted[a]
            == last;
    assert(taken_back(records[i], sorted(records, tasks, n).adopted[a]));
}

/// What records hold adds up: two runs of records hold together what each holds,
/// and one record holds its cores.
pub proof fn law_records_hold_the_sum_of_their_cores(a: Seq<Record>, b: Seq<Record>, r: Record)
    ensures
        recorded((a + b), (a + b).len()) == recorded(a, a.len()) + recorded(b, b.len()),
        recorded(seq![r], 1) == r.cores_held,
    decreases b.len(),
{
    reveal_with_fuel(recorded, 2);
    if b.len() == 0 {
        assert(a + b =~= a);
    } else {
        let c = b.drop_last();
        law_records_hold_the_sum_of_their_cores(a, c, r);
        lemma_recorded_prefix(a + b, a + c, (a + c).len());
        lemma_recorded_prefix(b, c, c.len());
        assert((a + b).len() == (a + c).len() + 1);
        assert((a + b)[(a + b).len() - 1] == b[b.len() - 1]);
    }
}

proof fn lemma_recorded_prefix(a: Seq<Record>, b: Seq<Record>, n: nat)
    requires
        n <= a.len(),
        n <= b.len(),
        forall|i: int| 0 <= i < n ==> a[i] == b[i],
    ensures
        recorded(a, n) == recorded(b, n),
    decreases n,
{
    if n > 0 {
        lemma_recorded_prefix(a, b, (n - 1) as nat);
    }
}

/// A new pool starts with what running tasks hold taken out of it, as far as it
/// goes; only what it has no room for is owed.
pub proof fn law_a_pool_starts_without_what_is_held(held: nat, pool_size: nat)
    requires
        held <= u32::MAX,
        pool_size <= u32::MAX,
    ensures
        seeded(held, pool_size).take + seeded(held, pool_size).debt == held,
        seeded(held, pool_size).take <= pool_size,
        held <= pool_size ==> seeded(held, pool_size).debt == 0,
        held > pool_size ==> seeded(held, pool_size).take == pool_size,
{
}

/// A path is among the fifos of some records exactly where one of them points at
/// it.
pub proof fn law_a_fifo_is_needed_while_a_record_points_at_it(
    records: Seq<Record>,
    n: nat,
    path: Seq<char>,
)
    requires
        n <= records.len(),
    ensures
        fifos(records, n).contains(path) <==> exists|i: int|
            0 <= i < n && maybe((#[trigger] records[i]).fifo) == Some(path),
    decreases n,
{
    if n > 0 {
        let m = (n - 1) as nat;
        law_a_fifo_is_needed_while_a_record_points_at_it(records, m, path);
        let before = fifos(records, m);
        let all = fifos(records, n);
        if all.contains(path) {
            let j = choose|j: int| 0 <= j < all.len() && all[j] == path;
            if j < before.len() {
                assert(before[j] == path);
                assert(before.contains(path));
            } else {
                assert(maybe(records[n - 1].fifo) == Some(path));
            }
        }
        if exists|i: int| 0 <= i < n && maybe((#[trigger] records[i]).fifo) == Some(path) {
            let i = choose|i: int| 0 <= i < n && maybe((#[trigger] records[i]).fifo) == Some(path);
            if i < m {
                assert(before.contains(path));
                let j = choose|j: int| 0 <= j < before.len() && before[j] == path;
                assert(all[j] == path);
            } else {
                assert(all[before.len() as int] == path);
            }
        }
    }
}

/// A fifo is told by its name: `jobserver-` and the number of the process it
/// belongs to, in any directory.
pub proof fn law_a_fifo_names_its_process(dir: Seq<char>, pid: u32)
    requires
        dir.len() == 0 || dir.last() == '/',
    ensures
        pid_of(dir + "jobserver-"@ + decimal_of(pid as nat)) == Some(pid as nat),
{
    let head = "jobserver-"@;
    let digits = decimal_of(pid as nat);
    let name = head + digits;
    let path = dir + head + digits;
    reveal_strlit("jobserver-");
    law_a_decimal_reads_back(pid as nat, u32::MAX as nat);
    lemma_decimal(pid as nat);
    assert(path =~= dir + name);
    assert(path.last() == digits.last());
    assert(trimmed(path) == path);
    assert forall|i: int| 0 <= i < name.len() implies name[i] != '/' by {
        if i >= 10 {
            assert(name[i] == digits[i - 10]);
        }
    }
    lemma_after_last_is(path, '/', dir.len());
    assert(path.skip(dir.len() as int) =~= name);
    assert(name.len() > 2);
    assert(name.take(10) =~= head);
    assert(name.skip(10) =~= digits);
}

/// The name of a file is what stands behind the last slash of its path, and slashes
/// at the end make no difference.
pub proof fn law_a_files_name_is_the_last_part_of_its_path(dir: Seq<char>, name: Seq<char>)
    requires
        dir.len() == 0 || dir.last() == '/',
        name.len() > 0,
        !name.contains('/'),
        name != seq!['.'],
        name != seq!['.', '.'],
    ensures
        file_name_of(dir + name) == Some(name),
        file_name_of(dir + name + seq!['/']) == Some(name),
{
    let path = dir + name;
    assert forall|i: int| 0 <= i < name.len() implies name[i] != '/' by {
        assert(name.contains(name[i]));
    }
    assert(path.last() == name.last());
    if name.len() == 1 {
        assert(name =~= seq![name[0]]);
    } else {
        assert(path[path.len() - 2] == name[name.len() - 2]);
    }
    assert(trimmed(path) == path);
    lemma_after_last_is(path, '/', dir.len());
    assert(path.skip(dir.len() as int) =~= name);
    let more = path + seq!['/'];
    assert(more.last() == '/');
    assert(more.drop_last() =~= path);
    assert(trimmed(more) == trimmed(path));
}

/// A record that is dropped says why: its task is gone, or is over, with what it
/// came to unless it was being torn down, or is not running, with what it is instead;
/// and one without a task was never admitted, or its submission never arrived.
pub proof fn law_a_dropped_record_says_why(
    record: Record,
    tasks: Seq<Task>,
    claimed: Seq<usize>,
    k: int,
)
    requires
        one_each(tasks),
    ensures
        record.pueue_task_id matches Some(id) && (forall|j: int|
            0 <= j < tasks.len() ==> (#[trigger] tasks[j]).id != id) ==> fate(
            record,
            tasks,
            claimed,
        ) == Fate::Drop("pueue task "@ + decimal_of(record.pueue_task_id->0 as nat) + " is gone"@),
        0 <= k < tasks.len() && record.pueue_task_id == Some(tasks[k].id) ==> {
            let task = "pueue task "@ + decimal_of(tasks[k].id as nat);
            match tasks[k].status {
                TaskStatus::Done(result) => if record.killing {
                    fate(record, tasks, claimed) == Fate::Drop(
                        task + " was torn down while no daemon was watching"@,
                    )
                } else {
                    fate(record, tasks, claimed) == Fate::Drop(
                        task + (" finished ("@ + result_text(result)
                            + ") while no daemon was watching; its exit code reached nobody"@),
                    )
                },
                TaskStatus::Queued(what) | TaskStatus::Other(what) => fate(record, tasks, claimed)
                    == Fate::Drop(task + (" is "@ + what@ + ", not running"@)),
                TaskStatus::Running => !(fate(record, tasks, claimed) is Drop),
            }
        },
        record.pueue_task_id is None && record.submitted_at_unix_ms is None ==> fate(
            record,
            tasks,
            claimed,
        ) == Fate::Drop("it was never admitted, and its client went with the daemon"@),
        record.pueue_task_id is None && record.submitted_at_unix_ms is Some && (fate(
            record,
            tasks,
            claimed,
        ) is Drop) ==> fate(record, tasks, claimed) == Fate::Drop(
            "its submission never reached pueued"@,
        ),
{
    if let Some(id) = record.pueue_task_id {
        law_a_task_is_found_by_its_id(tasks, id);
    }
    if 0 <= k < tasks.len() {
        lemma_task_at(tasks, k);
    }
}

} // verus!
