//! Status transitions: start, done, and reopen.

use vstd::prelude::*;

use crate::dates::{wf_timestamp, Timestamp};
use crate::dependency::{blocking_ids, get_blocking_tasks, id_blocked, models,
    not_still_blocked, unique_ids};
use crate::error::TaskCtlError;
use crate::markdown::encode_record;
use crate::numtext::{dec_digits, push_dec};
use crate::repository::{lemma_id_index_unique, lemma_repo_unique, path_chars, repo_wf,
    FileOp, FileOpM, RepoM, Repository};
use crate::status::{transition, transition_allowed, Status};
use crate::task::{wf_task, RecordM, TaskM};

verus! {

broadcast use vstd::string::group_string_axioms;

/// What a status change does to the store: nothing when the task already
/// has the target status; otherwise the one record is restamped and
/// rewritten.
pub open spec fn status_change_ok(
    old_m: RepoM,
    new_m: RepoM,
    i: int,
    target: Status,
    now: Timestamp,
    ops: Seq<FileOpM>,
) -> bool {
    let rec = old_m.records[i];
    if rec.task.status == target {
        new_m == old_m && ops.len() == 0
    } else {
        let updated = RecordM {
            task: TaskM { status: target, updated_at: now, ..rec.task },
            ..rec
        };
        new_m == (RepoM { records: old_m.records.update(i, updated), ..old_m })
            && ops.len() == 1
            && ops[0] == (FileOpM::Write {
                path: path_chars(old_m.data_dir, rec.task.id),
                content: encode_record(updated.task, rec.note),
            })
    }
}

/// Move the task to the target status. Idempotent: a task already at the
/// target is left untouched and the call still succeeds.
pub fn set_status(repo: &mut Repository, id: u32, target: Status, now: Timestamp) -> (r: Result<
    Vec<FileOp>,
    TaskCtlError,
>)
    requires
        repo_wf(old(repo)@),
        wf_timestamp(now),
    ensures
        repo_wf(final(repo)@),
        match r {
            Ok(ops) => exists|i: int| 0 <= i < old(repo)@.records.len()
                && (#[trigger] old(repo)@.records[i]).task.id == id
                && transition_allowed(old(repo)@.records[i].task.status, target)
                && status_change_ok(old(repo)@, final(repo)@, i, target, now,
                    ops@.map_values(|o: FileOp| o@)),
            Err(e) => final(repo)@ == old(repo)@
                && ((e == TaskCtlError::TaskNotFound(id)
                        && forall|i: int| 0 <= i < old(repo)@.records.len()
                            ==> (#[trigger] old(repo)@.records[i].task.id) != id)
                    || (e is InvalidArgument && exists|i: int|
                        0 <= i < old(repo)@.records.len()
                        && (#[trigger] old(repo)@.records[i]).task.id == id
                        && !transition_allowed(old(repo)@.records[i].task.status, target))),
        },
{
    let mut tw = match repo.read(id) {
        Ok(tw) => tw,
        Err(e) => {
            return Err(e);
        },
    };
    let ghost i = choose|i: int| 0 <= i < old(repo)@.records.len()
        && tw@ == old(repo)@.records[i] && old(repo)@.records[i].task.id == id;
    let new_status = match transition(tw.task.status, target) {
        Ok(s) => s,
        Err(e) => {
            return Err(e);
        },
    };
    if tw.task.status == new_status {
        let ops: Vec<FileOp> = Vec::new();
        proof {
            assert(ops@.map_values(|o: FileOp| o@) =~= Seq::<FileOpM>::empty());
            assert(status_change_ok(old(repo)@, final(repo)@, i, target, now,
                ops@.map_values(|o: FileOp| o@)));
        }
        return Ok(ops);
    }
    tw.task.status = new_status;
    tw.task.updated_at = now;
    proof {
        assert(tw@ =~= (RecordM {
            task: TaskM { status: target, updated_at: now, ..old(repo)@.records[i].task },
            ..old(repo)@.records[i]
        }));
        assert(wf_task(tw@.task));
    }
    let op = match repo.update(&tw) {
        Ok(op) => op,
        Err(_) => {
            proof {
                assert(false);
            }
            return Err(TaskCtlError::TaskNotFound(id));
        },
    };
    let mut ops: Vec<FileOp> = Vec::new();
    ops.push(op);
    proof {
        let j = choose|j: int| 0 <= j < old(repo)@.records.len()
            && old(repo)@.records[j].task.id == tw@.task.id
            && final(repo)@.records == old(repo)@.records.update(j, tw@)
            && op@ == (FileOpM::Write {
                path: path_chars(old(repo)@.data_dir, tw@.task.id),
                content: encode_record(tw@.task, tw@.note),
            });
        lemma_id_index_unique(old(repo)@, i, j);
        assert(j == i);
        assert(ops@.map_values(|o: FileOp| o@) =~= seq![op@]);
        assert(final(repo)@ =~= (RepoM {
            records: old(repo)@.records.update(i, tw@),
            ..old(repo)@
        }));
        assert(status_change_ok(old(repo)@, final(repo)@, i, target, now,
            ops@.map_values(|o: FileOp| o@)));
    }
    Ok(ops)
}

/// Repeating an identical status transition is a no-op the second time:
/// whatever the first application did, a second application with the same
/// target changes nothing and plans no writes.
pub proof fn lemma_status_change_idempotent(
    m1: RepoM,
    m2: RepoM,
    m3: RepoM,
    i: int,
    target: Status,
    now1: Timestamp,
    now2: Timestamp,
    ops1: Seq<FileOpM>,
    ops2: Seq<FileOpM>,
)
    requires
        0 <= i < m1.records.len(),
        m1.records.len() == m2.records.len(),
        status_change_ok(m1, m2, i, target, now1, ops1),
        status_change_ok(m2, m3, i, target, now2, ops2),
    ensures
        m3 == m2,
        ops2.len() == 0,
{
    assert(m2.records[i].task.status == target);
}

/// A `<verb> task #<id>` message.
fn task_msg(verb: &str, id: u32) -> (r: String)
    ensures
        r@ == verb@ + " task #"@ + dec_digits(id as nat),
{
    let mut out = String::new();
    out.append(verb);
    out.append(" task #");
    push_dec(&mut out, id as u64);
    proof {
        assert(out@ =~= verb@ + " task #"@ + dec_digits(id as nat));
    }
    out
}

/// Start working on a task: Pending -> InProgress (or a no-op when it
/// already is in progress).
pub fn run_start(repo: &mut Repository, id: u32, now: Timestamp) -> (r: Result<
    (String, Vec<FileOp>),
    TaskCtlError,
>)
    requires
        repo_wf(old(repo)@),
        wf_timestamp(now),
    ensures
        repo_wf(final(repo)@),
        match r {
            Ok((msg, ops)) => msg@ == "Started"@ + " task #"@ + dec_digits(id as nat)
                && exists|i: int| 0 <= i < old(repo)@.records.len()
                    && (#[trigger] old(repo)@.records[i]).task.id == id
                    && transition_allowed(old(repo)@.records[i].task.status,
                        Status::InProgress)
                    && status_change_ok(old(repo)@, final(repo)@, i, Status::InProgress, now,
                        ops@.map_values(|o: FileOp| o@)),
            Err(e) => final(repo)@ == old(repo)@
                && ((e == TaskCtlError::TaskNotFound(id)
                        && forall|i: int| 0 <= i < old(repo)@.records.len()
                            ==> (#[trigger] old(repo)@.records[i].task.id) != id)
                    || (e is InvalidArgument && exists|i: int|
                        0 <= i < old(repo)@.records.len()
                        && (#[trigger] old(repo)@.records[i]).task.id == id
                        && !transition_allowed(old(repo)@.records[i].task.status, Status::InProgress))),
        },
{
    let ops = set_status(repo, id, Status::InProgress, now)?;
    Ok((task_msg("Started", id), ops))
}

/// Reopen a task: back to Pending (or a no-op when it already is pending).
pub fn run_pending(repo: &mut Repository, id: u32, now: Timestamp) -> (r: Result<
    (String, Vec<FileOp>),
    TaskCtlError,
>)
    requires
        repo_wf(old(repo)@),
        wf_timestamp(now),
    ensures
        repo_wf(final(repo)@),
        match r {
            Ok((msg, ops)) => msg@ == "Reopened"@ + " task #"@ + dec_digits(id as nat)
                && exists|i: int| 0 <= i < old(repo)@.records.len()
                    && (#[trigger] old(repo)@.records[i]).task.id == id
                    && transition_allowed(old(repo)@.records[i].task.status, Status::Pending)
                    && status_change_ok(old(repo)@, final(repo)@, i, Status::Pending, now,
                        ops@.map_values(|o: FileOp| o@)),
            Err(e) => final(repo)@ == old(repo)@
                && ((e == TaskCtlError::TaskNotFound(id)
                        && forall|i: int| 0 <= i < old(repo)@.records.len()
                            ==> (#[trigger] old(repo)@.records[i].task.id) != id)
                    || (e is InvalidArgument && exists|i: int|
                        0 <= i < old(repo)@.records.len()
                        && (#[trigger] old(repo)@.records[i]).task.id == id
                        && !transition_allowed(old(repo)@.records[i].task.status, Status::Pending))),
        },
{
    let ops = set_status(repo, id, Status::Pending, now)?;
    Ok((task_msg("Reopened", id), ops))
}

/// The ids unblocked by completing `id`: those that waited on it and have
/// no unfinished dependency left in the snapshot, in snapshot order.
pub open spec fn unblocked_after(g: Seq<TaskM>, id: u32) -> Seq<u32> {
    blocking_ids(g, id).filter(not_still_blocked(g))
}

/// The id list of an unblocked report: `#a, #b, ...`.
pub open spec fn id_list(ids: Seq<u32>) -> Seq<char>
    decreases ids.len(),
{
    if ids.len() == 0 {
        Seq::empty()
    } else if ids.len() == 1 {
        "#"@ + dec_digits(ids[0] as nat)
    } else {
        id_list(ids.drop_last()) + ", #"@ + dec_digits(ids.last() as nat)
    }
}

/// The completion message: `Completed task #<id>`, then the unblocked
/// report when anything came free.
pub open spec fn done_msg(id: u32, unblocked: Seq<u32>) -> Seq<char> {
    "Completed"@ + " task #"@ + dec_digits(id as nat) + if unblocked.len() == 0 {
        Seq::<char>::empty()
    } else {
        "\n  Unblocked: "@ + id_list(unblocked)
    }
}

/// The snapshot of a store model, as the graph service sees it.
pub open spec fn done_snapshot(m: RepoM) -> Seq<TaskM> {
    m.records.map_values(|t: RecordM| t.task)
}

/// Complete a task, and report the tasks this unblocks: those that waited
/// on it and have no other unfinished dependency left.
pub fn run_done(repo: &mut Repository, id: u32, now: Timestamp) -> (r: Result<
    (String, Vec<FileOp>),
    TaskCtlError,
>)
    requires
        repo_wf(old(repo)@),
        wf_timestamp(now),
    ensures
        repo_wf(final(repo)@),
        match r {
            Ok((msg, ops)) => msg@ == done_msg(id, unblocked_after(
                done_snapshot(final(repo)@), id))
                && exists|i: int| 0 <= i < old(repo)@.records.len()
                    && (#[trigger] old(repo)@.records[i]).task.id == id
                    && transition_allowed(old(repo)@.records[i].task.status, Status::Done)
                    && status_change_ok(old(repo)@, final(repo)@, i, Status::Done, now,
                        ops@.map_values(|o: FileOp| o@)),
            Err(e) => final(repo)@ == old(repo)@
                && ((e == TaskCtlError::TaskNotFound(id)
                        && forall|i: int| 0 <= i < old(repo)@.records.len()
                            ==> (#[trigger] old(repo)@.records[i].task.id) != id)
                    || (e is InvalidArgument && exists|i: int|
                        0 <= i < old(repo)@.records.len()
                        && (#[trigger] old(repo)@.records[i]).task.id == id
                        && !transition_allowed(old(repo)@.records[i].task.status, Status::Done))),
        },
{
    let ops = set_status(repo, id, Status::Done, now)?;
    let mut msg = task_msg("Completed", id);

    // List the tasks that waited on this one and are now unblocked.
    let all_tasks = repo.tasks();
    let ghost g = models(all_tasks@);
    proof {
        lemma_repo_unique(repo@);
        assert(g == done_snapshot(final(repo)@));
    }
    let waiting = get_blocking_tasks(id, &all_tasks);
    let mut unblocked: Vec<u32> = Vec::new();
    let mut k: usize = 0;
    while k < waiting.len()
        invariant
            0 <= k <= waiting@.len(),
            g == models(all_tasks@),
            unique_ids(g),
            waiting@ == blocking_ids(g, id),
            unblocked@ == waiting@.subrange(0, k as int).filter(not_still_blocked(g)),
        decreases waiting@.len() - k,
    {
        let wid = waiting[k];
        let blocked_w = id_blocked(&all_tasks, wid);
        proof {
            reveal(Seq::filter);
            assert(waiting@.subrange(0, k + 1).drop_last()
                =~= waiting@.subrange(0, k as int));
            assert(waiting@.subrange(0, k + 1).last() == wid);
        }
        if !blocked_w {
            unblocked.push(wid);
        }
        k += 1;
    }
    proof {
        assert(waiting@.subrange(0, waiting@.len() as int) =~= waiting@);
        assert(unblocked@ == unblocked_after(g, id));
    }
    if unblocked.len() > 0 {
        msg.append("\n  Unblocked: ");
        let ghost base = msg@;
        proof {
            assert(unblocked@.subrange(0, 0) =~= Seq::<u32>::empty());
            assert(msg@ =~= base + id_list(unblocked@.subrange(0, 0)));
        }
        let mut j: usize = 0;
        while j < unblocked.len()
            invariant
                0 <= j <= unblocked@.len(),
                msg@ == base + id_list(unblocked@.subrange(0, j as int)),
            decreases unblocked@.len() - j,
        {
            proof {
                assert(unblocked@.subrange(0, j + 1).drop_last()
                    =~= unblocked@.subrange(0, j as int));
                assert(unblocked@.subrange(0, j + 1).last() == unblocked@[j as int]);
            }
            if j == 0 {
                msg.append("#");
            } else {
                msg.append(", #");
            }
            push_dec(&mut msg, unblocked[j] as u64);
            proof {
                assert(msg@ =~= base + id_list(unblocked@.subrange(0, j + 1)));
            }
            j += 1;
        }
        proof {
            assert(unblocked@.subrange(0, unblocked@.len() as int) =~= unblocked@);
            assert(msg@ =~= done_msg(id, unblocked_after(g, id)));
        }
    } else {
        proof {
            assert(msg@ =~= done_msg(id, unblocked_after(g, id)));
        }
    }
    Ok((msg, ops))
}

} // verus!
