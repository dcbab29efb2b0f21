//! Pin and unpin: a manual ordering override, idempotent in both
//! directions.

use vstd::prelude::*;

use crate::dates::{wf_timestamp, Timestamp};
use crate::error::TaskCtlError;
use crate::markdown::encode_record;
use crate::numtext::{dec_digits, push_dec};
use crate::repository::{lemma_id_index_unique, path_chars, repo_wf, FileOp, FileOpM,
    RepoM, Repository};
use crate::task::{wf_task, RecordM, TaskM};

verus! {

broadcast use vstd::string::group_string_axioms;

/// What pinning or unpinning does to the store: nothing when the flag
/// already has the wanted value; otherwise the one record is restamped,
/// its pin time set exactly when it becomes pinned, and rewritten.
pub open spec fn pin_change_ok(
    old_m: RepoM,
    new_m: RepoM,
    i: int,
    pinned: bool,
    now: Timestamp,
    ops: Seq<FileOpM>,
) -> bool {
    let rec = old_m.records[i];
    if rec.task.pinned == pinned {
        new_m == old_m && ops.len() == 0
    } else {
        let updated = RecordM {
            task: TaskM {
                pinned,
                pinned_at: if pinned { Some(now) } else { None },
                updated_at: now,
                ..rec.task
            },
            ..rec
        };
        new_m == (RepoM { records: old_m.records.update(i, updated), ..old_m })
            && ops.len() == 1
            && ops[0] == (FileOpM::Write {
                path: path_chars(old_m.data_dir, rec.task.id),
                content: encode_record(updated.task, rec.note),
            })
    }
}

/// Repeating a pin (or unpin) is a no-op the second time: whatever the
/// first application did, a second application with the same flag changes
/// nothing and plans no writes.
pub proof fn lemma_pin_change_idempotent(
    m1: RepoM,
    m2: RepoM,
    m3: RepoM,
    i: int,
    pinned: bool,
    now1: Timestamp,
    now2: Timestamp,
    ops1: Seq<FileOpM>,
    ops2: Seq<FileOpM>,
)
    requires
        0 <= i < m1.records.len(),
        m1.records.len() == m2.records.len(),
        pin_change_ok(m1, m2, i, pinned, now1, ops1),
        pin_change_ok(m2, m3, i, pinned, now2, ops2),
    ensures
        m3 == m2,
        ops2.len() == 0,
{
    assert(m2.records[i].task.pinned == pinned);
}

/// Set the pinned flag; a second identical call is a no-op.
fn set_pinned(repo: &mut Repository, id: u32, pinned: bool, now: Timestamp) -> (r: Result<
    Vec<FileOp>,
    TaskCtlError,
>)
    requires
        repo_wf(old(repo)@),
        wf_timestamp(now),
    ensures
        repo_wf(final(repo)@),
        match r {
            Ok(ops) => exists|i: int| 0 <= i < old(repo)@.records.len()
                && (#[trigger] old(repo)@.records[i]).task.id == id
                && pin_change_ok(old(repo)@, final(repo)@, i, pinned, now,
                    ops@.map_values(|o: FileOp| o@)),
            Err(e) => final(repo)@ == old(repo)@ && e == TaskCtlError::TaskNotFound(id)
                && forall|i: int| 0 <= i < old(repo)@.records.len()
                    ==> (#[trigger] old(repo)@.records[i].task.id) != id,
        },
{
    let mut tw = match repo.read(id) {
        Ok(tw) => tw,
        Err(e) => {
            return Err(e);
        },
    };
    let ghost i = choose|i: int| 0 <= i < old(repo)@.records.len()
        && tw@ == old(repo)@.records[i] && old(repo)@.records[i].task.id == id;
    if tw.task.pinned == pinned {
        let ops: Vec<FileOp> = Vec::new();
        proof {
            assert(ops@.map_values(|o: FileOp| o@) =~= Seq::<FileOpM>::empty());
            assert(pin_change_ok(old(repo)@, final(repo)@, i, pinned, now,
                ops@.map_values(|o: FileOp| o@)));
        }
        return Ok(ops);
    }
    tw.task.pinned = pinned;
    tw.task.pinned_at = if pinned { Some(now) } else { None };
    tw.task.updated_at = now;
    proof {
        assert(tw@ =~= (RecordM {
            task: TaskM {
                pinned,
                pinned_at: if pinned { Some(now) } else { None },
                updated_at: now,
                ..old(repo)@.records[i].task
            },
            ..old(repo)@.records[i]
        }));
        assert(wf_task(tw@.task));
    }
    let op = match repo.update(&tw) {
        Ok(op) => op,
        Err(_) => {
            proof {
                assert(false);
            }
            return Err(TaskCtlError::TaskNotFound(id));
        },
    };
    let mut ops: Vec<FileOp> = Vec::new();
    ops.push(op);
    proof {
        let j = choose|j: int| 0 <= j < old(repo)@.records.len()
            && old(repo)@.records[j].task.id == tw@.task.id
            && final(repo)@.records == old(repo)@.records.update(j, tw@)
            && op@ == (FileOpM::Write {
                path: path_chars(old(repo)@.data_dir, tw@.task.id),
                content: encode_record(tw@.task, tw@.note),
            });
        lemma_id_index_unique(old(repo)@, i, j);
        assert(j == i);
        assert(ops@.map_values(|o: FileOp| o@) =~= seq![op@]);
        assert(final(repo)@ =~= (RepoM {
            records: old(repo)@.records.update(i, tw@),
            ..old(repo)@
        }));
        assert(pin_change_ok(old(repo)@, final(repo)@, i, pinned, now,
            ops@.map_values(|o: FileOp| o@)));
    }
    Ok(ops)
}

/// Pin a task to the front of the ordering; pinning a pinned task is a
/// no-op that keeps its original pin time.
pub fn run_pin(repo: &mut Repository, id: u32, now: Timestamp) -> (r: Result<
    (String, Vec<FileOp>),
    TaskCtlError,
>)
    requires
        repo_wf(old(repo)@),
        wf_timestamp(now),
    ensures
        repo_wf(final(repo)@),
        match r {
            Ok((msg, ops)) => msg@ == "Pinned task #"@ + dec_digits(id as nat)
                && exists|i: int| 0 <= i < old(repo)@.records.len()
                    && (#[trigger] old(repo)@.records[i]).task.id == id
                    && pin_change_ok(old(repo)@, final(repo)@, i, true, now,
                        ops@.map_values(|o: FileOp| o@)),
            Err(e) => final(repo)@ == old(repo)@ && e == TaskCtlError::TaskNotFound(id)
                && forall|i: int| 0 <= i < old(repo)@.records.len()
                    ==> (#[trigger] old(repo)@.records[i].task.id) != id,
        },
{
    let ops = set_pinned(repo, id, true, now)?;
    let mut msg = String::new();
    msg.append("Pinned task #");
    push_dec(&mut msg, id as u64);
    proof {
        assert(msg@ =~= "Pinned task #"@ + dec_digits(id as nat));
    }
    Ok((msg, ops))
}

/// Unpin a task; unpinning an unpinned task is a no-op.
pub fn run_unpin(repo: &mut Repository, id: u32, now: Timestamp) -> (r: Result<
    (String, Vec<FileOp>),
    TaskCtlError,
>)
    requires
        repo_wf(old(repo)@),
        wf_timestamp(now),
    ensures
        repo_wf(final(repo)@),
        match r {
            Ok((msg, ops)) => msg@ == "Unpinned task #"@ + dec_digits(id as nat)
                && exists|i: int| 0 <= i < old(repo)@.records.len()
                    && (#[trigger] old(repo)@.records[i]).task.id == id
                    && pin_change_ok(old(repo)@, final(repo)@, i, false, now,
                        ops@.map_values(|o: FileOp| o@)),
            Err(e) => final(repo)@ == old(repo)@ && e == TaskCtlError::TaskNotFound(id)
                && forall|i: int| 0 <= i < old(repo)@.records.len()
                    ==> (#[trigger] old(repo)@.records[i].task.id) != id,
        },
{
    let ops = set_pinned(repo, id, false, now)?;
    let mut msg = String::new();
    msg.append("Unpinned task #");
    push_dec(&mut msg, id as u64);
    proof {
        assert(msg@ =~= "Unpinned task #"@ + dec_digits(id as nat));
    }
    Ok((msg, ops))
}

} // verus!
