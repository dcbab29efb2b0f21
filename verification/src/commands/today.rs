//! The today view: the unfinished tasks that deserve attention now.

use vstd::prelude::*;

use crate::config::Config;
use crate::dependency::models;
use crate::repository::{repo_tasks, repo_wf, lemma_repo_unique, Repository};
use crate::scoring::{sort_tasks_with_date, spec_le, stable_perm};
use crate::status::Status;
use crate::task::{clone_task, Task, TaskM};

verus! {

/// What the today view keeps: an unfinished task that is due by today,
/// already in progress, or pinned.
pub open spec fn today_pred(today: u32) -> spec_fn(TaskM) -> bool {
    |t: TaskM| t.status != Status::Done && (match t.due {
        Some(d) => d <= today,
        None => false,
    } || t.status == Status::InProgress || t.pinned)
}

/// The today view: the snapshot filtered to what deserves attention now,
/// in the deterministic total order, ties keeping snapshot order.
pub fn run(repo: &Repository, config: &Config, today: u32) -> (r: Vec<Task>)
    requires
        repo_wf(repo@),
    ensures
        models(r@).to_multiset() == repo_tasks(repo@).filter(today_pred(today)).to_multiset(),
        forall|x: int, y: int| 0 <= x < y < r@.len() ==> spec_le(
            models(r@)[x],
            models(r@)[y],
            repo_tasks(repo@),
            config.priority.weights,
            config.estimate.point_to_hours,
            today,
        ),
        exists|perm: Seq<int>| #[trigger] stable_perm(
            repo_tasks(repo@).filter(today_pred(today)),
            models(r@),
            perm,
            repo_tasks(repo@),
            config.priority.weights,
            config.estimate.point_to_hours,
            today,
        ),
{
    let all_tasks = repo.tasks();
    let ghost g = repo_tasks(repo@);
    proof {
        lemma_repo_unique(repo@);
        assert(models(all_tasks@) == g);
    }
    let mut candidates: Vec<Task> = Vec::new();
    let mut k: usize = 0;
    while k < all_tasks.len()
        invariant
            0 <= k <= all_tasks@.len(),
            g == models(all_tasks@),
            models(candidates@) == g.subrange(0, k as int).filter(today_pred(today)),
        decreases all_tasks@.len() - k,
    {
        let t = &all_tasks[k];
        proof {
            reveal(Seq::filter);
            assert(g.subrange(0, k + 1).drop_last() =~= g.subrange(0, k as int));
            assert(g.subrange(0, k + 1).last() == t@);
        }
        let due_soon = match t.due {
            Some(d) => d <= today,
            None => false,
        };
        let wanted = !matches!(t.status, Status::Done)
            && (due_soon || matches!(t.status, Status::InProgress) || t.pinned);
        if wanted {
            let ghost before = models(candidates@);
            candidates.push(clone_task(t));
            proof {
                assert(models(candidates@) =~= before.push(t@));
            }
        }
        k += 1;
    }
    proof {
        assert(g.subrange(0, g.len() as int) =~= g);
    }
    sort_tasks_with_date(&mut candidates, &all_tasks, config, today);
    candidates
}

} // verus!
