//! Dependency edits: add an edge, remove an edge, and build the tree.

use vstd::prelude::*;

use crate::dates::{wf_timestamp, Timestamp};
use crate::dependency::{
    add_dependency, cycle_prefix, get_dependency_tree, has_id, not_id, reaches,
    remove_dependency, vec_contains, TreeNode,
};
use crate::error::TaskCtlError;
use crate::markdown::encode_record;
use crate::numtext::{dec_digits, has_prefix_at, push_dec};
use crate::repository::{lemma_id_index_unique, lemma_repo_unique, path_chars, repo_wf,
    FileOp, FileOpM, RepoM, Repository};
use crate::task::{wf_task, RecordM, TaskM};

verus! {

broadcast use vstd::string::group_string_axioms;

/// The snapshot the graph service sees for a store.
pub open spec fn snapshot(m: RepoM) -> Seq<TaskM> {
    m.records.map_values(|r: RecordM| r.task)
}

/// Record the validated edge `id -> on`: fails as `add_dependency` does;
/// otherwise the edge is appended to the task's list (a no-op when already
/// present) and the record is restamped and rewritten.
pub fn run_depends(repo: &mut Repository, id: u32, on: u32, now: Timestamp) -> (r: Result<
    (String, Vec<FileOp>),
    TaskCtlError,
>)
    requires
        repo_wf(old(repo)@),
        wf_timestamp(now),
    ensures
        repo_wf(final(repo)@),
        match r {
            Ok((msg, ops)) => id != on && has_id(snapshot(old(repo)@), on)
                && !reaches(snapshot(old(repo)@), on, id)
                && exists|i: int| 0 <= i < old(repo)@.records.len()
                    && (#[trigger] old(repo)@.records[i]).task.id == id
                    && ({
                    let rec = old(repo)@.records[i];
                    if rec.task.depends_on.contains(on) {
                        final(repo)@ == old(repo)@ && ops@.len() == 0
                    } else {
                        let updated = RecordM {
                            task: TaskM {
                                depends_on: rec.task.depends_on.push(on),
                                updated_at: now,
                                ..rec.task
                            },
                            ..rec
                        };
                        final(repo)@ == (RepoM {
                            records: old(repo)@.records.update(i, updated),
                            ..old(repo)@
                        }) && ops@.len() == 1
                            && ops@[0]@ == (FileOpM::Write {
                            path: path_chars(old(repo)@.data_dir, id),
                            content: encode_record(updated.task, rec.note),
                        })
                    }
                }),
            Err(e) => final(repo)@ == old(repo)@ && {
                let g = snapshot(old(repo)@);
                if id == on {
                    e == TaskCtlError::SelfDependency(id)
                } else if !has_id(g, on) {
                    e == TaskCtlError::TaskNotFound(on)
                } else if reaches(g, on, id) {
                    e is CyclicDependency && has_prefix_at(e->CyclicDependency_0@, 0,
                        cycle_prefix(id, on))
                } else {
                    e == TaskCtlError::TaskNotFound(id)
                        && forall|i: int| 0 <= i < old(repo)@.records.len()
                            ==> (#[trigger] old(repo)@.records[i].task.id) != id
                }
            },
        },
{
    let all_tasks = repo.tasks();
    proof {
        lemma_repo_unique(repo@);
    }
    match add_dependency(id, on, &all_tasks) {
        Ok(()) => {},
        Err(e) => {
            return Err(e);
        },
    }
    let mut tw = match repo.read(id) {
        Ok(tw) => tw,
        Err(e) => {
            return Err(e);
        },
    };
    let ghost i = choose|i: int| 0 <= i < old(repo)@.records.len()
        && tw@ == old(repo)@.records[i] && old(repo)@.records[i].task.id == id;
    let mut ops: Vec<FileOp> = Vec::new();
    if !vec_contains(&tw.task.depends_on, on) {
        tw.task.depends_on.push(on);
        tw.task.updated_at = now;
        proof {
            assert(tw@ =~= (RecordM {
                task: TaskM {
                    depends_on: old(repo)@.records[i].task.depends_on.push(on),
                    updated_at: now,
                    ..old(repo)@.records[i].task
                },
                ..old(repo)@.records[i]
            }));
            assert(wf_task(tw@.task));
        }
        let op = match repo.update(&tw) {
            Ok(op) => op,
            Err(_) => {
                proof {
                    assert(false);
                }
                return Err(TaskCtlError::TaskNotFound(id));
            },
        };
        ops.push(op);
        proof {
            let j = choose|j: int| 0 <= j < old(repo)@.records.len()
                && old(repo)@.records[j].task.id == tw@.task.id
                && final(repo)@.records == old(repo)@.records.update(j, tw@)
                && op@ == (FileOpM::Write {
                    path: path_chars(old(repo)@.data_dir, tw@.task.id),
                    content: encode_record(tw@.task, tw@.note),
                });
            assert(j == i) by {
                if j < i {
                    assert(old(repo)@.records[j].task.id < old(repo)@.records[i].task.id);
                }
                if i < j {
                    assert(old(repo)@.records[i].task.id < old(repo)@.records[j].task.id);
                }
            };
            assert(final(repo)@ =~= (RepoM {
                records: old(repo)@.records.update(i, tw@),
                ..old(repo)@
            }));
        }
    }
    let mut msg = String::new();
    msg.append("Added dependency: #");
    push_dec(&mut msg, id as u64);
    msg.append(" depends on #");
    push_dec(&mut msg, on as u64);
    Ok((msg, ops))
}

/// Remove the edge `id -> on` wherever it occurs in the task's list, and
/// restamp and rewrite the record.
pub fn run_undepends(repo: &mut Repository, id: u32, on: u32, now: Timestamp) -> (r: Result<
    (String, Vec<FileOp>),
    TaskCtlError,
>)
    requires
        repo_wf(old(repo)@),
        wf_timestamp(now),
    ensures
        repo_wf(final(repo)@),
        match r {
            Ok((msg, ops)) => exists|i: int| 0 <= i < old(repo)@.records.len()
                && (#[trigger] old(repo)@.records[i]).task.id == id
                && ({
                    let rec = old(repo)@.records[i];
                    let updated = RecordM {
                        task: TaskM {
                            depends_on: rec.task.depends_on.filter(not_id(on)),
                            updated_at: now,
                            ..rec.task
                        },
                        ..rec
                    };
                    final(repo)@ == (RepoM {
                        records: old(repo)@.records.update(i, updated),
                        ..old(repo)@
                    }) && ops@.len() == 1
                        && ops@[0]@ == (FileOpM::Write {
                        path: path_chars(old(repo)@.data_dir, id),
                        content: encode_record(updated.task, rec.note),
                    })
                }),
            Err(e) => final(repo)@ == old(repo)@ && e == TaskCtlError::TaskNotFound(id)
                && forall|i: int| 0 <= i < old(repo)@.records.len()
                    ==> (#[trigger] old(repo)@.records[i].task.id) != id,
        },
{
    let mut tw = match repo.read(id) {
        Ok(tw) => tw,
        Err(e) => {
            return Err(e);
        },
    };
    let ghost i = choose|i: int| 0 <= i < old(repo)@.records.len()
        && tw@ == old(repo)@.records[i] && old(repo)@.records[i].task.id == id;
    remove_dependency(&mut tw.task, on);
    tw.task.updated_at = now;
    proof {
        assert(tw@ =~= (RecordM {
            task: TaskM {
                depends_on: old(repo)@.records[i].task.depends_on.filter(not_id(on)),
                updated_at: now,
                ..old(repo)@.records[i].task
            },
            ..old(repo)@.records[i]
        }));
        assert(wf_task(tw@.task));
    }
    let op = match repo.update(&tw) {
        Ok(op) => op,
        Err(_) => {
            proof {
                assert(false);
            }
            return Err(TaskCtlError::TaskNotFound(id));
        },
    };
    let mut ops: Vec<FileOp> = Vec::new();
    ops.push(op);
    proof {
        let j = choose|j: int| 0 <= j < old(repo)@.records.len()
            && old(repo)@.records[j].task.id == tw@.task.id
            && final(repo)@.records == old(repo)@.records.update(j, tw@)
            && op@ == (FileOpM::Write {
                path: path_chars(old(repo)@.data_dir, tw@.task.id),
                content: encode_record(tw@.task, tw@.note),
            });
        lemma_id_index_unique(old(repo)@, i, j);
        assert(j == i);
        assert(final(repo)@ =~= (RepoM {
            records: old(repo)@.records.update(i, tw@),
            ..old(repo)@
        }));
    }
    let mut msg = String::new();
    msg.append("Removed dependency: #");
    push_dec(&mut msg, id as u64);
    msg.append(" no longer depends on #");
    push_dec(&mut msg, on as u64);
    Ok((msg, ops))
}

/// Build the dependency tree rooted at the task, or fail with
/// `TaskNotFound` when the id is absent.
pub fn run_tree(repo: &Repository, id: u32) -> (r: Result<TreeNode, TaskCtlError>)
    requires
        repo_wf(repo@),
    ensures
        match r {
            Ok(node) => node.id == id && has_id(snapshot(repo@), id)
                && crate::dependency::tree_matches(snapshot(repo@), node)
                && exists|i: int| 0 <= i < snapshot(repo@).len()
                    && (#[trigger] snapshot(repo@)[i]).id == id
                    && node.title@ == snapshot(repo@)[i].title
                    && node.status == snapshot(repo@)[i].status
                    && node.children@.len() <= snapshot(repo@)[i].depends_on.len(),
            Err(e) => e == TaskCtlError::TaskNotFound(id) && !has_id(snapshot(repo@), id),
        },
{
    let all_tasks = repo.tasks();
    proof {
        lemma_repo_unique(repo@);
    }
    match get_dependency_tree(id, &all_tasks) {
        Some(node) => {
            proof {
                assert(crate::dependency::models(all_tasks@) == snapshot(repo@));
                let i = choose|i: int| 0 <= i < crate::dependency::models(all_tasks@).len()
                    && crate::dependency::models(all_tasks@)[i].id == id
                    && node.title@ == crate::dependency::models(all_tasks@)[i].title
                    && node.status == crate::dependency::models(all_tasks@)[i].status
                    && node.children@.len()
                        <= crate::dependency::models(all_tasks@)[i].depends_on.len();
                assert((#[trigger] snapshot(repo@)[i]).id == id);
            }
            Ok(node)
        },
        None => Err(TaskCtlError::TaskNotFound(id)),
    }
}

} // verus!
