//! The next view: the single best task to work on.

use vstd::prelude::*;

use crate::config::Config;
use crate::dependency::{models, spec_blocked, unique_ids};
use crate::repository::{repo_tasks, repo_wf, lemma_repo_unique, Repository};
use crate::scoring::{sort_tasks_with_date, spec_le};
use crate::status::Status;
use crate::task::{clone_task, Task, TaskM};

verus! {

broadcast use vstd::seq_lib::group_to_multiset_ensures;

/// What the next view considers actionable: unfinished and not blocked.
pub open spec fn next_pred(g: Seq<TaskM>) -> spec_fn(TaskM) -> bool {
    |t: TaskM| t.status != Status::Done && !spec_blocked(t, g)
}

/// The best task to work on next: an actionable task that the total order
/// places before every other actionable one, or nothing when no task is
/// actionable.
pub fn run(repo: &Repository, config: &Config, today: u32) -> (r: Option<Task>)
    requires
        repo_wf(repo@),
    ensures
        r is None <==> repo_tasks(repo@).filter(next_pred(repo_tasks(repo@))).len() == 0,
        r matches Some(best) ==> repo_tasks(repo@).filter(next_pred(repo_tasks(repo@)))
            .contains(best@)
            && forall|c: TaskM| repo_tasks(repo@).filter(next_pred(repo_tasks(repo@)))
                .contains(c) ==> spec_le(
                best@,
                c,
                repo_tasks(repo@),
                config.priority.weights,
                config.estimate.point_to_hours,
                today,
            ),
{
    let all_tasks = repo.tasks();
    let ghost g = repo_tasks(repo@);
    proof {
        lemma_repo_unique(repo@);
        assert(models(all_tasks@) == g);
    }
    let mut candidates: Vec<Task> = Vec::new();
    let mut k: usize = 0;
    while k < all_tasks.len()
        invariant
            0 <= k <= all_tasks@.len(),
            g == models(all_tasks@),
            unique_ids(g),
            models(candidates@) == g.subrange(0, k as int).filter(next_pred(g)),
        decreases all_tasks@.len() - k,
    {
        let t = &all_tasks[k];
        proof {
            reveal(Seq::filter);
            assert(g.subrange(0, k + 1).drop_last() =~= g.subrange(0, k as int));
            assert(g.subrange(0, k + 1).last() == t@);
        }
        let wanted = !matches!(t.status, Status::Done)
            && !crate::dependency::is_blocked(t, &all_tasks);
        if wanted {
            let ghost before = models(candidates@);
            candidates.push(clone_task(t));
            proof {
                assert(models(candidates@) =~= before.push(t@));
            }
        }
        k += 1;
    }
    proof {
        assert(g.subrange(0, g.len() as int) =~= g);
    }
    sort_tasks_with_date(&mut candidates, &all_tasks, config, today);
    if candidates.len() == 0 {
        proof {
            assert(models(candidates@).to_multiset() =~= Seq::<TaskM>::empty().to_multiset());
            if g.filter(next_pred(g)).len() > 0 {
                assert(g.filter(next_pred(g)).to_multiset().count(
                    g.filter(next_pred(g))[0]) > 0);
                assert(models(candidates@).to_multiset().count(
                    g.filter(next_pred(g))[0]) > 0);
            }
        }
        return None;
    }
    let best = clone_task(&candidates[0]);
    proof {
        let filt = g.filter(next_pred(g));
        assert(models(candidates@).to_multiset() == filt.to_multiset());
        assert(models(candidates@)[0] == best@);
        assert(filt.contains(best@)) by {
            assert(models(candidates@).to_multiset().count(best@) > 0);
        };
        assert forall|c: TaskM| filt.contains(c) implies spec_le(
            best@,
            c,
            g,
            config.priority.weights,
            config.estimate.point_to_hours,
            today,
        ) by {
            assert(models(candidates@).to_multiset().count(c) > 0);
            assert(models(candidates@).contains(c));
            let idx = choose|idx: int| 0 <= idx < models(candidates@).len()
                && models(candidates@)[idx] == c;
            if idx > 0 {
                assert(spec_le(models(candidates@)[0], models(candidates@)[idx], g,
                    config.priority.weights, config.estimate.point_to_hours, today));
            } else {
                crate::scoring::lemma_le_total(best@, c, g, config.priority.weights,
                    config.estimate.point_to_hours, today);
                assert(spec_le(best@, c, g, config.priority.weights,
                    config.estimate.point_to_hours, today));
            }
        };
    }
    Some(best)
}

} // verus!
