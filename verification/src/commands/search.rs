//! Free-text search: match the query against titles and notes, narrow by
//! tag and status, and rank the hits.

use vstd::prelude::*;

use crate::config::Config;
use crate::dependency::models;
use crate::error::TaskCtlError;
use crate::numtext::{contains_ignore_ascii, contains_lower, eq_ignore_ascii, lower_seq};
use crate::repository::{repo_tasks, repo_wf, lemma_repo_unique, Repository};
use crate::scoring::{sort_tasks_with_date, spec_le, stable_perm};
use crate::status::{spec_status_token, Status};
use crate::task::{clone_task, RecordM, Task, TaskM};

verus! {

/// What a search keeps: the query occurs in the title or the note, every
/// given narrowing matches, with text compared ignoring ASCII case.
pub open spec fn search_pred(
    q: Seq<char>,
    tag: Option<Seq<char>>,
    st: Option<Status>,
) -> spec_fn(RecordM) -> bool {
    |rec: RecordM| (contains_lower(rec.task.title, q) || contains_lower(rec.note, q))
        && (match tag {
            Some(tg) => exists|i: int| 0 <= i < rec.task.tags.len()
                && lower_seq(#[trigger] rec.task.tags[i]) == lower_seq(tg),
            None => true,
        })
        && (match st {
            Some(s0) => rec.task.status == s0,
            None => true,
        })
}

/// The status a given narrowing token names.
pub open spec fn wanted_status(status_filter: Option<&String>) -> Option<Status> {
    match status_filter {
        Some(sf) => spec_status_token(sf@),
        None => None,
    }
}

/// The characters of a given tag narrowing.
pub open spec fn wanted_tag(tag: Option<&String>) -> Option<Seq<char>> {
    match tag {
        Some(t) => Some(t@),
        None => None,
    }
}

/// The tasks a search keeps, in snapshot order.
pub open spec fn search_hits(
    records: Seq<RecordM>,
    q: Seq<char>,
    tag: Option<Seq<char>>,
    st: Option<Status>,
) -> Seq<TaskM> {
    records.filter(search_pred(q, tag, st)).map_values(|rec: RecordM| rec.task)
}

/// Whether some tag equals `tg`, ignoring ASCII case.
fn has_tag(tags: &Vec<String>, tg: &String) -> (r: bool)
    ensures
        r == exists|i: int| 0 <= i < tags@.len()
            && lower_seq(#[trigger] tags@[i]@) == lower_seq(tg@),
{
    let mut i: usize = 0;
    while i < tags.len()
        invariant
            0 <= i <= tags@.len(),
            forall|k: int| 0 <= k < i ==> lower_seq(#[trigger] tags@[k]@) != lower_seq(tg@),
        decreases tags@.len() - i,
    {
        if eq_ignore_ascii(tags[i].as_str(), tg.as_str()) {
            return true;
        }
        i += 1;
    }
    false
}

/// Search the store: the records whose title or note holds the query,
/// narrowed by the optional tag and status, ranked in the total order with
/// ties keeping snapshot order. An unknown status token is an invalid
/// argument.
#[verifier::rlimit(60)]
pub fn run(
    repo: &Repository,
    config: &Config,
    query: &str,
    tag: Option<&String>,
    status_filter: Option<&String>,
    today: u32,
) -> (r: Result<Vec<Task>, TaskCtlError>)
    requires
        repo_wf(repo@),
    ensures
        r is Err ==> (status_filter matches Some(sf) && spec_status_token(sf@) is None
            && r->Err_0 is InvalidArgument),
        r is Ok ==> (status_filter matches Some(sf) ==> spec_status_token(sf@) is Some),
        r matches Ok(v) ==> models(v@).to_multiset() == search_hits(
            repo@.records,
            query@,
            wanted_tag(tag),
            wanted_status(status_filter),
        ).to_multiset(),
        r matches Ok(v) ==> forall|x: int, y: int| 0 <= x < y < v@.len() ==> spec_le(
            models(v@)[x],
            models(v@)[y],
            repo_tasks(repo@),
            config.priority.weights,
            config.estimate.point_to_hours,
            today,
        ),
        r matches Ok(v) ==> exists|perm: Seq<int>| #[trigger] stable_perm(
            search_hits(repo@.records, query@, wanted_tag(tag), wanted_status(status_filter)),
            models(v@),
            perm,
            repo_tasks(repo@),
            config.priority.weights,
            config.estimate.point_to_hours,
            today,
        ),
{
    let st: Option<Status> = match status_filter {
        Some(sf) => match Status::from_str_loose(sf.as_str()) {
            Ok(s0) => Some(s0),
            Err(e) => {
                return Err(e);
            },
        },
        None => None,
    };
    let ghost stg: Option<Status> = st;
    let ghost tg: Option<Seq<char>> = wanted_tag(tag);
    let ghost pred = search_pred(query@, tg, stg);
    let records = repo.read_all();
    let all_tasks = repo.tasks();
    let ghost g = repo_tasks(repo@);
    proof {
        lemma_repo_unique(repo@);
        assert(models(all_tasks@) == g);
        assert(records@.map_values(|t: crate::task::TaskWithNote| t@) == repo@.records);
    }
    let mut results: Vec<Task> = Vec::new();
    let mut k: usize = 0;
    while k < records.len()
        invariant
            0 <= k <= records@.len(),
            records@.map_values(|t: crate::task::TaskWithNote| t@) == repo@.records,
            pred == search_pred(query@, tg, stg),
            stg == st,
            tg == wanted_tag(tag),
            models(results@) == repo@.records.subrange(0, k as int).filter(pred)
                .map_values(|rec: RecordM| rec.task),
        decreases records@.len() - k,
    {
        let rec = &records[k];
        proof {
            reveal(Seq::filter);
            assert(rec@ == repo@.records[k as int]);
            assert(repo@.records.subrange(0, k + 1).drop_last()
                =~= repo@.records.subrange(0, k as int));
            assert(repo@.records.subrange(0, k + 1).last() == rec@);
        }
        let text_hit = contains_ignore_ascii(rec.task.title.as_str(), query)
            || contains_ignore_ascii(rec.note.as_str(), query);
        let tag_hit = match tag {
            Some(t) => has_tag(&rec.task.tags, t),
            None => true,
        };
        let status_hit = match st {
            Some(s0) => rec.task.status == s0,
            None => true,
        };
        if text_hit && tag_hit && status_hit {
            let ghost before = models(results@);
            results.push(clone_task(&rec.task));
            proof {
                match tag {
                    Some(t) => {
                        let i = choose|i: int| 0 <= i < rec.task.tags@.len()
                            && lower_seq(#[trigger] rec.task.tags@[i]@) == lower_seq(t@);
                        assert(rec@.task.tags[i] == rec.task.tags@[i]@);
                        assert(lower_seq(rec@.task.tags[i]) == lower_seq(t@));
                    },
                    None => {},
                }
                assert(pred(rec@));
                assert(models(results@) =~= before.push(rec@.task));
                assert(models(results@) =~= repo@.records.subrange(0, k + 1).filter(pred)
                    .map_values(|rec2: RecordM| rec2.task));
            }
        } else {
            proof {
                if text_hit && !tag_hit {
                    match tag {
                        Some(t) => {
                            assert forall|i: int| 0 <= i < rec@.task.tags.len()
                                implies lower_seq(#[trigger] rec@.task.tags[i])
                                    != lower_seq(t@) by {
                                assert(rec@.task.tags[i] == rec.task.tags@[i]@);
                            };
                        },
                        None => {},
                    }
                }
                assert(!pred(rec@));
            }
        }
        k += 1;
    }
    proof {
        assert(repo@.records.subrange(0, repo@.records.len() as int) =~= repo@.records);
    }
    let ghost presort = models(results@);
    sort_tasks_with_date(&mut results, &all_tasks, config, today);
    proof {
        assert(stg == wanted_status(status_filter));
        assert(presort == search_hits(repo@.records, query@, wanted_tag(tag),
            wanted_status(status_filter)));
        let perm = choose|perm: Seq<int>| #[trigger] stable_perm(
            presort,
            models(results@),
            perm,
            g,
            config.priority.weights,
            config.estimate.point_to_hours,
            today,
        );
        assert(stable_perm(
            search_hits(repo@.records, query@, wanted_tag(tag), wanted_status(status_filter)),
            models(results@),
            perm,
            g,
            config.priority.weights,
            config.estimate.point_to_hours,
            today,
        ));
        assert(models(results@).to_multiset() == search_hits(
            repo@.records,
            query@,
            wanted_tag(tag),
            wanted_status(status_filter),
        ).to_multiset());
    }
    Ok(results)
}

} // verus!
