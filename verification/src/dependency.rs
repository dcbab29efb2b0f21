//! The dependency graph service: edge validation with cycle detection,
//! blocking queries, and dependency trees, all over a full task snapshot.

use vstd::prelude::*;

use crate::error::TaskCtlError;
use crate::numtext::{dec_digits, has_prefix_at, push_dec};
use crate::status::Status;
use crate::task::{Task, TaskM, clone_string};

verus! {

broadcast use vstd::string::group_string_axioms;

/// The models of a task snapshot.
pub open spec fn models(s: Seq<Task>) -> Seq<TaskM> {
    s.map_values(|t: Task| t@)
}

/// No two tasks of the snapshot share an id.
pub open spec fn unique_ids(g: Seq<TaskM>) -> bool {
    forall|i: int, j: int| 0 <= i < g.len() && 0 <= j < g.len() && i != j
        ==> g[i].id != g[j].id
}

/// Whether the snapshot holds a task with this id.
pub open spec fn has_id(g: Seq<TaskM>, id: u32) -> bool {
    exists|i: int| 0 <= i < g.len() && g[i].id == id
}

/// The dependency edge relation: some task with id `x` lists `y`.
pub open spec fn edge(g: Seq<TaskM>, x: u32, y: u32) -> bool {
    exists|i: int| 0 <= i < g.len() && g[i].id == x && g[i].depends_on.contains(y)
}

/// A path: a nonempty id sequence that follows edges.
pub open spec fn is_path(g: Seq<TaskM>, p: Seq<u32>) -> bool {
    p.len() >= 1 && forall|i: int| 0 <= i < p.len() - 1 ==> edge(g, #[trigger] p[i], p[i + 1])
}

/// `y` is reachable from `x` along dependency edges; every id reaches itself.
pub open spec fn reaches(g: Seq<TaskM>, x: u32, y: u32) -> bool {
    exists|p: Seq<u32>| is_path(g, p) && p.first() == x && p.last() == y
}

/// One edge extends a reachable path.
proof fn lemma_reaches_step(g: Seq<TaskM>, x: u32, y: u32, z: u32)
    requires
        reaches(g, x, y),
        edge(g, y, z),
    ensures
        reaches(g, x, z),
{
    let p = choose|p: Seq<u32>| is_path(g, p) && p.first() == x && p.last() == y;
    let q = p.push(z);
    assert(q.first() == x);
    assert(q.last() == z);
    assert(is_path(g, q)) by {
        assert(forall|i: int| 0 <= i < p.len() - 1 ==> #[trigger] q[i] == p[i]);
        assert(q[p.len() - 1] == y && q[p.len() as int] == z);
    };
}

/// Every id reaches itself.
proof fn lemma_reaches_self(g: Seq<TaskM>, x: u32)
    ensures
        reaches(g, x, x),
{
    let p = seq![x];
    assert(is_path(g, p) && p.first() == x && p.last() == x);
}

/// A sequence's value set is no larger than the sequence.
proof fn lemma_to_set_card_le<A>(s: Seq<A>)
    ensures
        s.to_set().finite(),
        s.to_set().len() <= s.len(),
    decreases s.len(),
{
    vstd::seq_lib::seq_to_set_is_finite(s);
    if s.len() == 0 {
        assert(s.to_set() =~= Set::<A>::empty());
    } else {
        let t = s.drop_last();
        lemma_to_set_card_le(t);
        assert(s.to_set() =~= t.to_set().insert(s.last())) by {
            assert forall|a: A| #[trigger] s.contains(a)
                implies (t.contains(a) || a == s.last()) by {
                let i = choose|i: int| 0 <= i < s.len() && s[i] == a;
                if i < s.len() - 1 {
                    assert(t[i] == a);
                }
            };
            assert forall|a: A| t.contains(a) || a == s.last()
                implies #[trigger] s.contains(a) by {
                if t.contains(a) {
                    let i = choose|i: int| 0 <= i < t.len() && t[i] == a;
                    assert(s[i] == a);
                } else {
                    assert(s[s.len() - 1] == a);
                }
            };
        };
        assert(t.to_set().insert(s.last()).len() <= t.to_set().len() + 1) by {
            if t.to_set().contains(s.last()) {
                assert(t.to_set().insert(s.last()) =~= t.to_set());
            }
        };
    }
}

/// A duplicate-free id list whose ids all occur in the snapshot is no longer
/// than the snapshot.
proof fn lemma_visited_bound(g: Seq<TaskM>, visited: Seq<u32>)
    requires
        visited.no_duplicates(),
        forall|i: int| 0 <= i < visited.len() ==> has_id(g, #[trigger] visited[i]),
    ensures
        visited.len() <= g.len(),
{
    let ids = g.map_values(|t: TaskM| t.id);
    visited.unique_seq_to_set();
    assert(visited.to_set().subset_of(ids.to_set())) by {
        assert forall|v: u32| visited.to_set().contains(v)
            implies ids.to_set().contains(v) by {
            assert(visited.contains(v));
            let i = choose|i: int| 0 <= i < visited.len() && visited[i] == v;
            assert(has_id(g, v));
            let j = choose|j: int| 0 <= j < g.len() && g[j].id == v;
            assert(ids[j] == v);
            assert(ids.contains(v));
            vstd::seq_lib::seq_to_set_is_finite(ids);
        };
    };
    lemma_to_set_card_le(ids);
    vstd::seq_lib::seq_to_set_is_finite(ids);
    vstd::set_lib::lemma_len_subset(visited.to_set(), ids.to_set());
}

/// Find the index of the task with the given id.
fn find_index(all: &Vec<Task>, id: u32) -> (r: Option<usize>)
    ensures
        match r {
            Some(i) => i < all@.len() && models(all@)[i as int].id == id,
            None => !has_id(models(all@), id),
        },
{
    let mut i: usize = 0;
    while i < all.len()
        invariant
            0 <= i <= all@.len(),
            forall|k: int| 0 <= k < i ==> models(all@)[k].id != id,
        decreases all@.len() - i,
    {
        if all[i].id == id {
            proof {
                assert(models(all@)[i as int].id == all@[i as int]@.id);
            }
            return Some(i);
        }
        proof {
            assert(models(all@)[i as int].id == all@[i as int]@.id);
        }
        i += 1;
    }
    None
}

/// Whether a `visited` entry equals `id`.
pub fn vec_contains(v: &Vec<u32>, id: u32) -> (r: bool)
    ensures
        r == v@.contains(id),
{
    let mut i: usize = 0;
    while i < v.len()
        invariant
            0 <= i <= v@.len(),
            forall|k: int| 0 <= k < i ==> v@[k] != id,
        decreases v@.len() - i,
    {
        if v[i] == id {
            return true;
        }
        i += 1;
    }
    false
}

/// Popping loses at most the last element.
proof fn lemma_pop_contains(old_s: Seq<u32>, new_s: Seq<u32>)
    requires
        old_s.len() >= 1,
        new_s == old_s.drop_last(),
    ensures
        forall|d: u32| #[trigger] old_s.contains(d) ==> new_s.contains(d) || d == old_s.last(),
{
    assert forall|d: u32| #[trigger] old_s.contains(d)
        implies new_s.contains(d) || d == old_s.last() by {
        let i = choose|i: int| 0 <= i < old_s.len() && old_s[i] == d;
        if i < old_s.len() - 1 {
            assert(new_s[i] == d);
        }
    };
}

/// Pushing keeps every element and adds the new one.
proof fn lemma_push_contains(old_s: Seq<u32>, new_s: Seq<u32>, x: u32)
    requires
        new_s == old_s.push(x),
    ensures
        forall|d: u32| #[trigger] old_s.contains(d) ==> new_s.contains(d),
        new_s.contains(x),
{
    assert forall|d: u32| #[trigger] old_s.contains(d) implies new_s.contains(d) by {
        let i = choose|i: int| 0 <= i < old_s.len() && old_s[i] == d;
        assert(new_s[i] == d);
    };
    assert(new_s[new_s.len() - 1] == x);
}

/// Check whether adding the edge `task_id -> depends_on_id` would close a
/// cycle: a depth-first search decides whether `task_id` is reachable from
/// `depends_on_id` along existing edges.
pub fn would_create_cycle(task_id: u32, depends_on_id: u32, all: &Vec<Task>) -> (r: bool)
    requires
        unique_ids(models(all@)),
    ensures
        r == reaches(models(all@), depends_on_id, task_id),
{
    let ghost g = models(all@);
    let mut visited: Vec<u32> = Vec::new();
    let mut stack: Vec<u32> = Vec::new();
    stack.push(depends_on_id);
    proof {
        lemma_reaches_self(g, depends_on_id);
        assert(stack@.contains(depends_on_id)) by {
            assert(stack@[0] == depends_on_id);
        };
    }
    while stack.len() > 0
        invariant
            unique_ids(g),
            g == models(all@),
            visited@.no_duplicates(),
            forall|i: int| 0 <= i < visited@.len() ==> has_id(g, #[trigger] visited@[i]),
            forall|i: int| 0 <= i < stack@.len()
                ==> reaches(g, depends_on_id, #[trigger] stack@[i]),
            forall|i: int| 0 <= i < visited@.len()
                ==> reaches(g, depends_on_id, #[trigger] visited@[i]),
            !visited@.contains(task_id),
            // Closure: every explored edge leads into the frontier, the
            // explored set, or a dangling id that is not the target.
            forall|i: int, d: u32| 0 <= i < visited@.len()
                && #[trigger] edge(g, visited@[i], d)
                ==> visited@.contains(d) || stack@.contains(d)
                    || (!has_id(g, d) && d != task_id),
            // The start is accounted for.
            visited@.contains(depends_on_id) || stack@.contains(depends_on_id)
                || (!has_id(g, depends_on_id) && depends_on_id != task_id),
        decreases g.len() + 1 - visited@.len(), stack@.len(),
    {
        proof {
            lemma_visited_bound(g, visited@);
        }
        let ghost stack0 = stack@;
        let current = match stack.pop() {
            Some(c) => c,
            None => {
                proof {
                    assert(false);
                }
                return false;
            },
        };
        proof {
            lemma_pop_contains(stack0, stack@);
        }
        if current == task_id {
            return true;
        }
        if vec_contains(&visited, current) {
            continue;
        }
        match find_index(all, current) {
            Some(ti) => {
                let ghost visited0 = visited@;
                visited.push(current);
                proof {
                    lemma_push_contains(visited0, visited@, current);
                    assert(visited@.no_duplicates()) by {
                        assert forall|i: int| 0 <= i < visited@.len() - 1
                            implies visited@[i] != current by {
                            if visited@[i] == current {
                                assert(visited0[i] == current);
                                assert(visited0.contains(current));
                            }
                        };
                    };
                    assert(visited@.last() == current);
                }
                let deps_len = all[ti].depends_on.len();
                let ghost cur_deps = g[ti as int].depends_on;
                proof {
                    assert(all@[ti as int]@.depends_on == cur_deps);
                }
                let mut j: usize = 0;
                while j < deps_len
                    invariant
                        0 <= j <= deps_len == cur_deps.len(),
                        ti < all@.len(),
                        g == models(all@),
                        cur_deps == g[ti as int].depends_on,
                        g[ti as int].id == current,
                        unique_ids(g),
                        visited@.no_duplicates(),
                        visited@.len() >= 1 && visited@.last() == current,
                        forall|i: int| 0 <= i < visited@.len()
                            ==> has_id(g, #[trigger] visited@[i]),
                        forall|i: int| 0 <= i < stack@.len()
                            ==> reaches(g, depends_on_id, #[trigger] stack@[i]),
                        forall|i: int| 0 <= i < visited@.len()
                            ==> reaches(g, depends_on_id, #[trigger] visited@[i]),
                        !visited@.contains(task_id),
                        // All previously explored nodes keep their closure.
                        forall|i: int, d: u32| 0 <= i < visited@.len() - 1
                            && #[trigger] edge(g, visited@[i], d)
                            ==> visited@.contains(d) || stack@.contains(d)
                                || (!has_id(g, d) && d != task_id),
                        // The new node's first `j` dependencies are pushed.
                        forall|k: int| 0 <= k < j ==> stack@.contains(#[trigger] cur_deps[k]),
                        visited@.contains(depends_on_id) || stack@.contains(depends_on_id)
                            || (!has_id(g, depends_on_id) && depends_on_id != task_id),
                    decreases deps_len - j,
                {
                    let d = all[ti].depends_on[j];
                    proof {
                        assert(cur_deps[j as int] == d);
                        assert(edge(g, current, d));
                        assert(reaches(g, depends_on_id, current)) by {
                            assert(visited@.contains(visited@.last()));
                        };
                        lemma_reaches_step(g, depends_on_id, current, d);
                    }
                    let ghost stack1 = stack@;
                    stack.push(d);
                    proof {
                        lemma_push_contains(stack1, stack@, d);
                    }
                    j += 1;
                }
                proof {
                    // The freshly explored node is closed: with unique ids,
                    // every edge out of `current` is one of its dependencies.
                    assert forall|i: int, d: u32| 0 <= i < visited@.len()
                        && #[trigger] edge(g, visited@[i], d)
                        implies visited@.contains(d) || stack@.contains(d)
                            || (!has_id(g, d) && d != task_id) by {
                        if i == visited@.len() - 1 {
                            let w = choose|w: int| 0 <= w < g.len() && g[w].id == current
                                && g[w].depends_on.contains(d);
                            assert(w == ti);
                            assert(cur_deps.contains(d));
                            let k = choose|k: int| 0 <= k < cur_deps.len()
                                && cur_deps[k] == d;
                            assert(stack@.contains(cur_deps[k]));
                        }
                    };
                }
            },
            None => {
                // A dangling id: no task, no outgoing edges, and not the
                // target (that was checked first).
            },
        }
    }
    // The frontier is empty and the explored set is closed: no path from the
    // start reaches the target.
    proof {
        assert(stack@.len() == 0);
        if reaches(g, depends_on_id, task_id) {
            let p = choose|p: Seq<u32>| is_path(g, p) && p.first() == depends_on_id
                && p.last() == task_id;
            if visited@.contains(depends_on_id) {
                assert forall|i: int, d: u32| 0 <= i < visited@.len()
                    && #[trigger] edge(g, visited@[i], d)
                    implies visited@.contains(d) || (!has_id(g, d) && d != task_id) by {
                    assert(!stack@.contains(d)) by {
                        if stack@.contains(d) {
                            let k = choose|k: int| 0 <= k < stack@.len() && stack@[k] == d;
                        }
                    };
                };
                lemma_path_stuck(g, visited@, task_id, p);
            } else {
                // The start is dangling and differs from the target, so the
                // path cannot leave it and cannot end at the target.
                assert(!has_id(g, depends_on_id) && depends_on_id != task_id);
                if p.len() == 1 {
                    assert(p.last() == depends_on_id);
                } else {
                    assert(edge(g, p[0], p[1]));
                }
            }
        }
    }
    false
}

/// A path that starts inside a closed explored set cannot end at an
/// unexplored target.
proof fn lemma_path_stuck(g: Seq<TaskM>, visited: Seq<u32>, target: u32, p: Seq<u32>)
    requires
        is_path(g, p),
        forall|i: int, d: u32| 0 <= i < visited.len()
            && #[trigger] edge(g, visited[i], d)
            ==> visited.contains(d) || (!has_id(g, d) && d != target),
        visited.contains(p.first()),
        !visited.contains(target),
    ensures
        p.last() != target,
    decreases p.len(),
{
    if p.len() == 1 {
        assert(p.last() == p.first());
    } else {
        assert(edge(g, p[0], p[1]));
        let i = choose|i: int| 0 <= i < visited.len() && visited[i] == p.first();
        assert(visited.contains(p[1]) || (!has_id(g, p[1]) && p[1] != target));
        if visited.contains(p[1]) {
            let q = p.drop_first();
            assert(is_path(g, q)) by {
                assert(forall|k: int| 0 <= k < q.len() - 1
                    ==> #[trigger] q[k] == p[k + 1] && q[k + 1] == p[k + 2]);
            };
            assert(q.first() == p[1]);
            lemma_path_stuck(g, visited, target, q);
            assert(q.last() == p.last());
        } else {
            if p.len() == 2 {
                assert(p.last() == p[1]);
            } else {
                assert(edge(g, p[1], p[2]));
                assert(has_id(g, p[1]));
            }
        }
    }
}

/// Validate adding the dependency `task_id -> depends_on_id` against the
/// snapshot. Rejects a self-dependency, a target absent from the snapshot,
/// and an edge that would close a cycle; on success nothing is persisted
/// here — the caller commits the edge.
pub fn add_dependency(task_id: u32, depends_on_id: u32, all_tasks: &Vec<Task>) -> (r: Result<
    (),
    TaskCtlError,
>)
    requires
        unique_ids(models(all_tasks@)),
    ensures
        r is Ok <==> (task_id != depends_on_id && has_id(models(all_tasks@), depends_on_id)
            && !reaches(models(all_tasks@), depends_on_id, task_id)),
        task_id == depends_on_id
            ==> r == Err::<(), TaskCtlError>(TaskCtlError::SelfDependency(task_id)),
        task_id != depends_on_id && !has_id(models(all_tasks@), depends_on_id)
            ==> r == Err::<(), TaskCtlError>(TaskCtlError::TaskNotFound(depends_on_id)),
        task_id != depends_on_id && has_id(models(all_tasks@), depends_on_id)
            && reaches(models(all_tasks@), depends_on_id, task_id)
            ==> r is Err && r->Err_0 is CyclicDependency
                && has_prefix_at(r->Err_0->CyclicDependency_0@, 0,
                    cycle_prefix(task_id, depends_on_id)),
{
    if task_id == depends_on_id {
        return Err(TaskCtlError::SelfDependency(task_id));
    }
    if find_index(all_tasks, depends_on_id).is_none() {
        return Err(TaskCtlError::TaskNotFound(depends_on_id));
    }
    if would_create_cycle(task_id, depends_on_id, all_tasks) {
        let cycle_path = find_cycle_path(task_id, depends_on_id, all_tasks);
        return Err(TaskCtlError::CyclicDependency(cycle_path));
    }
    Ok(())
}

/// Append `#id` to a path description.
fn push_id_label(out: &mut String, id: u32)
    ensures
        final(out)@ == old(out)@ + "#"@ + dec_digits(id as nat),
{
    out.append("#");
    push_dec(out, id as u64);
}

/// The opening of every rendered cycle path: the validated edge's two
/// endpoints, source first.
pub open spec fn cycle_prefix(from: u32, to: u32) -> Seq<char> {
    "#"@ + dec_digits(from as nat) + " -> #"@ + dec_digits(to as nat)
}

/// A best-effort walk that renders one offending path for the cycle error,
/// as `#from -> #to -> ... -> #from`: it always opens with the validated
/// edge's endpoints and then follows edges back toward the source.
fn find_cycle_path(task_id: u32, depends_on_id: u32, all: &Vec<Task>) -> (r: String)
    ensures
        has_prefix_at(r@, 0, cycle_prefix(task_id, depends_on_id)),
{
    let ghost pfx = cycle_prefix(task_id, depends_on_id);
    let mut path = String::new();
    push_id_label(&mut path, task_id);
    path.append(" -> ");
    push_id_label(&mut path, depends_on_id);
    proof {
        reveal_strlit("#");
        reveal_strlit(" -> ");
        reveal_strlit(" -> #");
        assert(path@ =~= pfx);
        assert(path@.subrange(0, pfx.len() as int) =~= pfx);
    }

    let mut current = depends_on_id;
    let mut visited: Vec<u32> = Vec::new();
    visited.push(task_id);
    let mut fuel = all.len();
    if fuel < usize::MAX {
        fuel += 1;
    }
    while current != task_id && fuel > 0
        invariant
            fuel <= all@.len() + 1,
            pfx == cycle_prefix(task_id, depends_on_id),
            has_prefix_at(path@, 0, pfx),
        decreases fuel,
    {
        fuel -= 1;
        visited.push(current);
        let next = match find_index(all, current) {
            Some(ti) => {
                let deps_len = all[ti].depends_on.len();
                let mut found: Option<u32> = None;
                let mut j: usize = 0;
                while j < deps_len
                    invariant
                        j <= deps_len == all@[ti as int]@.depends_on.len(),
                        ti < all@.len(),
                    decreases deps_len - j,
                {
                    let d = all[ti].depends_on[j];
                    if d == task_id || !vec_contains(&visited, d) {
                        found = Some(d);
                        break;
                    }
                    j += 1;
                }
                found
            },
            None => None,
        };
        match next {
            Some(d) => {
                let ghost before = path@;
                path.append(" -> ");
                push_id_label(&mut path, d);
                proof {
                    assert(path@.subrange(0, pfx.len() as int)
                        =~= before.subrange(0, pfx.len() as int));
                }
                current = d;
            },
            None => {
                break;
            },
        }
    }
    path
}

/// Remove every occurrence of `depends_on_id` from the task's dependency
/// list; all other attributes are untouched.
pub fn remove_dependency(task: &mut Task, depends_on_id: u32)
    ensures
        final(task)@ == (TaskM {
            depends_on: old(task)@.depends_on.filter(not_id(depends_on_id)),
            ..old(task)@
        }),
{
    let ghost deps0 = task@.depends_on;
    let mut out: Vec<u32> = Vec::new();
    let mut i: usize = 0;
    while i < task.depends_on.len()
        invariant
            0 <= i <= deps0.len(),
            task@.depends_on == deps0,
            out@ == deps0.subrange(0, i as int).filter(not_id(depends_on_id)),
        decreases deps0.len() - i,
    {
        let d = task.depends_on[i];
        proof {
            reveal(Seq::filter);
            assert(deps0.subrange(0, i + 1).drop_last() =~= deps0.subrange(0, i as int));
            assert(deps0.subrange(0, i + 1).last() == d);
        }
        if d != depends_on_id {
            out.push(d);
        }
        i += 1;
    }
    proof {
        assert(deps0.subrange(0, deps0.len() as int) =~= deps0);
    }
    task.depends_on = out;
    proof {
        assert(final(task)@ =~= (TaskM {
            depends_on: old(task)@.depends_on.filter(not_id(depends_on_id)),
            ..old(task)@
        }));
    }
}

/// The predicate a dependency removal filters with.
pub open spec fn not_id(id: u32) -> spec_fn(u32) -> bool {
    |d: u32| d != id
}

/// Filtering an id out of a list free of it changes nothing.
pub proof fn lemma_filter_no_match(deps: Seq<u32>, id: u32)
    requires
        !deps.contains(id),
    ensures
        deps.filter(not_id(id)) == deps,
    decreases deps.len(),
{
    reveal(Seq::filter);
    if deps.len() > 0 {
        assert(!deps.drop_last().contains(id)) by {
            if deps.drop_last().contains(id) {
                let i = choose|i: int| 0 <= i < deps.drop_last().len()
                    && deps.drop_last()[i] == id;
                assert(deps[i] == id);
            }
        };
        lemma_filter_no_match(deps.drop_last(), id);
        assert(deps[deps.len() - 1] != id) by {
            if deps.last() == id {
                assert(deps.contains(id));
            }
        };
        assert(deps.filter(not_id(id)) =~= deps);
    } else {
        assert(deps.filter(not_id(id)) =~= deps);
    }
}

/// An id that resolves to an unfinished task in the snapshot.
pub open spec fn active_dep(g: Seq<TaskM>, d: u32) -> bool {
    exists|j: int| 0 <= j < g.len() && g[j].id == d && g[j].status != Status::Done
}

/// A task is blocked when some dependency resolves to an unfinished task;
/// unresolvable ids do not block.
pub open spec fn spec_blocked(t: TaskM, g: Seq<TaskM>) -> bool {
    exists|k: int| 0 <= k < t.depends_on.len() && active_dep(g, #[trigger] t.depends_on[k])
}

/// Whether the task has an incomplete dependency in the snapshot.
pub fn is_blocked(task: &Task, all_tasks: &Vec<Task>) -> (r: bool)
    requires
        unique_ids(models(all_tasks@)),
    ensures
        r == spec_blocked(task@, models(all_tasks@)),
{
    let ghost g = models(all_tasks@);
    let mut k: usize = 0;
    while k < task.depends_on.len()
        invariant
            0 <= k <= task@.depends_on.len(),
            g == models(all_tasks@),
            unique_ids(g),
            forall|j: int| 0 <= j < k ==> !active_dep(g, #[trigger] task@.depends_on[j]),
        decreases task@.depends_on.len() - k,
    {
        let d = task.depends_on[k];
        match find_index(all_tasks, d) {
            Some(ti) => {
                if !matches!(all_tasks[ti].status, Status::Done) {
                    proof {
                        assert(active_dep(g, task@.depends_on[k as int]));
                    }
                    return true;
                }
                proof {
                    // With unique ids, the one resolving task is Done.
                    if active_dep(g, d) {
                        let j = choose|j: int| 0 <= j < g.len() && g[j].id == d
                            && g[j].status != Status::Done;
                        assert(j == ti);
                    }
                }
            },
            None => {
                proof {
                    if active_dep(g, d) {
                        let j = choose|j: int| 0 <= j < g.len() && g[j].id == d
                            && g[j].status != Status::Done;
                    }
                }
            },
        }
        k += 1;
    }
    false
}

/// Whether `d` resolves to an unfinished task of the snapshot.
pub fn dep_active(all_tasks: &Vec<Task>, d: u32) -> (r: bool)
    requires
        unique_ids(models(all_tasks@)),
    ensures
        r == active_dep(models(all_tasks@), d),
{
    let ghost g = models(all_tasks@);
    match find_index(all_tasks, d) {
        Some(ti) => {
            let r = !matches!(all_tasks[ti].status, Status::Done);
            proof {
                if active_dep(g, d) {
                    let j = choose|j: int| 0 <= j < g.len() && g[j].id == d
                        && g[j].status != Status::Done;
                    assert(j == ti);
                }
                if r {
                    assert(active_dep(g, d)) by {
                        assert(g[ti as int].id == d && g[ti as int].status != Status::Done);
                    };
                }
            }
            r
        },
        None => {
            proof {
                if active_dep(g, d) {
                    let j = choose|j: int| 0 <= j < g.len() && g[j].id == d
                        && g[j].status != Status::Done;
                }
            }
            false
        },
    }
}

/// Whether `w` names a task of the snapshot that is itself still blocked.
pub open spec fn still_blocked(g: Seq<TaskM>, w: u32) -> bool {
    exists|j: int| 0 <= j < g.len() && g[j].id == w && spec_blocked(g[j], g)
}

/// The predicate an unblocked-report filters with: the id's task, if any,
/// has no unfinished dependency left.
pub open spec fn not_still_blocked(g: Seq<TaskM>) -> spec_fn(u32) -> bool {
    |w: u32| !still_blocked(g, w)
}

/// Whether the task an id names is still blocked in the snapshot.
pub fn id_blocked(all_tasks: &Vec<Task>, w: u32) -> (r: bool)
    requires
        unique_ids(models(all_tasks@)),
    ensures
        r == still_blocked(models(all_tasks@), w),
{
    let ghost g = models(all_tasks@);
    match find_index(all_tasks, w) {
        Some(ti) => {
            let r = is_blocked(&all_tasks[ti], all_tasks);
            proof {
                assert(all_tasks@[ti as int]@ == g[ti as int]);
                if still_blocked(g, w) {
                    let j = choose|j: int| 0 <= j < g.len() && g[j].id == w
                        && spec_blocked(g[j], g);
                    assert(j == ti);
                }
                if r {
                    assert(g[ti as int].id == w && spec_blocked(g[ti as int], g));
                }
            }
            r
        },
        None => {
            proof {
                if still_blocked(g, w) {
                    let j = choose|j: int| 0 <= j < g.len() && g[j].id == w
                        && spec_blocked(g[j], g);
                }
            }
            false
        },
    }
}

/// The ids of the unfinished tasks whose `depends_on` lists `id`, in
/// snapshot order.
pub open spec fn blocking_ids(g: Seq<TaskM>, id: u32) -> Seq<u32>
    decreases g.len(),
{
    if g.len() == 0 {
        Seq::empty()
    } else {
        let rest = blocking_ids(g.drop_last(), id);
        if g.last().depends_on.contains(id) && g.last().status != Status::Done {
            rest.push(g.last().id)
        } else {
            rest
        }
    }
}

/// The tasks actively waiting on `task_id`: they list it and are not Done.
pub fn get_blocking_tasks(task_id: u32, all_tasks: &Vec<Task>) -> (r: Vec<u32>)
    ensures
        r@ == blocking_ids(models(all_tasks@), task_id),
{
    let ghost g = models(all_tasks@);
    let mut out: Vec<u32> = Vec::new();
    let mut i: usize = 0;
    while i < all_tasks.len()
        invariant
            0 <= i <= all_tasks@.len(),
            g == models(all_tasks@),
            out@ == blocking_ids(g.subrange(0, i as int), task_id),
        decreases all_tasks@.len() - i,
    {
        proof {
            assert(g.subrange(0, i + 1).drop_last() =~= g.subrange(0, i as int));
            assert(g.subrange(0, i + 1).last() == g[i as int]);
        }
        let listed = vec_contains(&all_tasks[i].depends_on, task_id);
        if listed && !matches!(all_tasks[i].status, Status::Done) {
            out.push(all_tasks[i].id);
        }
        i += 1;
    }
    proof {
        assert(g.subrange(0, g.len() as int) =~= g);
    }
    out
}

/// A rooted view of a task's dependencies.
#[derive(Debug)]
pub struct TreeNode {
    pub id: u32,
    pub title: String,
    pub status: Status,
    pub children: Vec<TreeNode>,
}

/// Whether an id occurs anywhere in a tree.
pub open spec fn in_tree(node: TreeNode, v: u32) -> bool
    decreases node,
{
    v == node.id || exists|k: int| 0 <= k < node.children@.len()
        && in_tree(#[trigger] node.children@[k], v)
}

/// Whether every node of a tree copies its task's attributes from the
/// snapshot: id, title and status, recursively.
pub open spec fn tree_matches(g: Seq<TaskM>, node: TreeNode) -> bool
    decreases node,
{
    &&& (exists|i: int| 0 <= i < g.len() && (#[trigger] g[i]).id == node.id
        && node.title@ == g[i].title && node.status == g[i].status)
    &&& (forall|k: int| 0 <= k < node.children@.len()
        ==> tree_matches(g, #[trigger] node.children@[k]))
}

/// Build the dependency tree rooted at `task_id`, or nothing when the id
/// is absent from the snapshot. Every node copies its task's id, title and
/// status; children follow `depends_on` order, one per dependency that
/// resolves and is not already on the path; unknown ids are omitted, and
/// every resolvable dependency of the root appears in the tree.
pub fn get_dependency_tree(task_id: u32, all_tasks: &Vec<Task>) -> (r: Option<TreeNode>)
    requires
        unique_ids(models(all_tasks@)),
    ensures
        r is Some <==> has_id(models(all_tasks@), task_id),
        r matches Some(node) ==> {
            &&& node.id == task_id
            &&& tree_matches(models(all_tasks@), node)
            &&& exists|i: int| 0 <= i < all_tasks@.len()
                && models(all_tasks@)[i].id == task_id
                && node.title@ == models(all_tasks@)[i].title
                && node.status == models(all_tasks@)[i].status
                && node.children@.len() <= models(all_tasks@)[i].depends_on.len()
                && (forall|k: int| 0 <= k < node.children@.len()
                    ==> models(all_tasks@)[i].depends_on.contains(
                        (#[trigger] node.children@[k]).id))
                && (exists|idxs: Seq<int>| #[trigger] idxs.len() == node.children@.len()
                    && (forall|k: int| 0 <= k < idxs.len() ==> 0 <= #[trigger] idxs[k]
                        < models(all_tasks@)[i].depends_on.len()
                        && models(all_tasks@)[i].depends_on[idxs[k]]
                            == node.children@[k].id)
                    && (forall|k: int, l: int| 0 <= k < l < idxs.len()
                        ==> idxs[k] < idxs[l]))
                && (forall|j: int| 0 <= j < models(all_tasks@)[i].depends_on.len()
                    && has_id(models(all_tasks@),
                        #[trigger] models(all_tasks@)[i].depends_on[j])
                    ==> in_tree(node, models(all_tasks@)[i].depends_on[j]))
        },
{
    match find_index(all_tasks, task_id) {
        Some(ti) => {
            let mut visited: Vec<u32> = Vec::new();
            let node = build_tree(all_tasks, ti, &mut visited);
            proof {
                let g = models(all_tasks@);
                assert(0 <= ti < all_tasks@.len() && g[ti as int].id == task_id);
                assert forall|j: int| 0 <= j < g[ti as int].depends_on.len()
                    && has_id(g, #[trigger] g[ti as int].depends_on[j])
                    implies in_tree(node, g[ti as int].depends_on[j]) by {
                    assert(visited@.contains(g[ti as int].depends_on[j]));
                };
            }
            Some(node)
        },
        None => None,
    }
}

/// Expand one task into a tree node, recursively expanding its dependencies
/// in order. The visited set carried through the recursion guarantees that
/// a node already on the path is never re-expanded, so the construction
/// terminates even on corrupted, cyclic data. Unknown ids are omitted. The
/// visited set grows by exactly the ids of the built tree, so every
/// resolvable dependency is either already on the path or in the tree.
fn build_tree(all: &Vec<Task>, ti: usize, visited: &mut Vec<u32>) -> (node: TreeNode)
    requires
        unique_ids(models(all@)),
        ti < all@.len(),
        !old(visited)@.contains(models(all@)[ti as int].id),
        old(visited)@.no_duplicates(),
        forall|i: int| 0 <= i < old(visited)@.len()
            ==> has_id(models(all@), #[trigger] old(visited)@[i]),
    ensures
        final(visited)@.no_duplicates(),
        forall|i: int| 0 <= i < final(visited)@.len()
            ==> has_id(models(all@), #[trigger] final(visited)@[i]),
        forall|d: u32| #[trigger] old(visited)@.contains(d) ==> final(visited)@.contains(d),
        final(visited)@.len() > old(visited)@.len(),
        node.id == models(all@)[ti as int].id,
        node.title@ == models(all@)[ti as int].title,
        node.status == models(all@)[ti as int].status,
        node.children@.len() <= models(all@)[ti as int].depends_on.len(),
        tree_matches(models(all@), node),
        // The visited set grows by exactly the tree's ids.
        forall|v: u32| #[trigger] final(visited)@.contains(v)
            <==> old(visited)@.contains(v) || in_tree(node, v),
        // Children are dependencies not already on the path ...
        forall|k: int| 0 <= k < node.children@.len()
            ==> models(all@)[ti as int].depends_on.contains(
                (#[trigger] node.children@[k]).id)
                && !old(visited)@.contains(node.children@[k].id),
        // ... taken in dependency-list order ...
        exists|idxs: Seq<int>| #[trigger] idxs.len() == node.children@.len()
            && (forall|k: int| 0 <= k < idxs.len() ==> 0 <= #[trigger] idxs[k]
                < models(all@)[ti as int].depends_on.len()
                && models(all@)[ti as int].depends_on[idxs[k]] == node.children@[k].id)
            && (forall|k: int, l: int| 0 <= k < l < idxs.len() ==> idxs[k] < idxs[l]),
        // ... and every dependency that resolves ends up visited.
        forall|j: int| 0 <= j < models(all@)[ti as int].depends_on.len()
            && has_id(models(all@), #[trigger] models(all@)[ti as int].depends_on[j])
            ==> final(visited)@.contains(models(all@)[ti as int].depends_on[j]),
    decreases all@.len() - old(visited)@.len(),
{
    let ghost g = models(all@);
    let current_id = all[ti].id;
    proof {
        assert(g[ti as int].id == current_id);
        assert(has_id(g, current_id));
        lemma_visited_bound(g, old(visited)@);
    }
    let ghost visited0 = visited@;
    visited.push(current_id);
    proof {
        lemma_push_contains(visited0, visited@, current_id);
        assert(visited@.no_duplicates()) by {
            assert forall|i: int| 0 <= i < visited@.len() - 1
                implies visited@[i] != current_id by {
                if visited@[i] == current_id {
                    assert(visited0[i] == current_id);
                    assert(visited0.contains(current_id));
                }
            };
        };
        assert forall|v: u32| #[trigger] visited@.contains(v)
            implies visited0.contains(v) || v == current_id by {
            let i = choose|i: int| 0 <= i < visited@.len() && visited@[i] == v;
            if i < visited0.len() {
                assert(visited0[i] == v);
            }
        };
    }
    let ghost deps = g[ti as int].depends_on;
    let deps_len = all[ti].depends_on.len();
    let mut children: Vec<TreeNode> = Vec::new();
    let ghost mut idxs: Seq<int> = Seq::empty();
    let mut j: usize = 0;
    while j < deps_len
        invariant
            0 <= j <= deps_len == deps.len(),
            ti < all@.len(),
            g == models(all@),
            deps == g[ti as int].depends_on,
            g[ti as int].id == current_id,
            unique_ids(g),
            visited@.no_duplicates(),
            forall|i: int| 0 <= i < visited@.len() ==> has_id(g, #[trigger] visited@[i]),
            forall|d: u32| #[trigger] visited0.contains(d) ==> visited@.contains(d),
            visited0 == old(visited)@,
            visited@.len() > visited0.len(),
            children@.len() <= j,
            forall|k: int| 0 <= k < children@.len()
                ==> tree_matches(g, #[trigger] children@[k]),
            forall|v: u32| #[trigger] visited@.contains(v)
                <==> visited0.contains(v) || v == current_id
                    || exists|k: int| 0 <= k < children@.len()
                        && in_tree(#[trigger] children@[k], v),
            forall|k: int| 0 <= k < children@.len()
                ==> deps.contains((#[trigger] children@[k]).id)
                    && !visited0.contains(children@[k].id),
            idxs.len() == children@.len(),
            forall|k: int| 0 <= k < idxs.len() ==> 0 <= #[trigger] idxs[k] < j
                && deps[idxs[k]] == children@[k].id,
            forall|k: int, l: int| 0 <= k < l < idxs.len() ==> idxs[k] < idxs[l],
            forall|jj: int| 0 <= jj < j && has_id(g, #[trigger] deps[jj])
                ==> visited@.contains(deps[jj]),
        decreases deps_len - j,
    {
        let d = all[ti].depends_on[j];
        proof {
            assert(deps[j as int] == d);
        }
        if !vec_contains(visited, d) {
            match find_index(all, d) {
                Some(di) => {
                    proof {
                        lemma_visited_bound(g, visited@);
                        assert(g[di as int].id == d);
                        assert(!visited@.contains(g[di as int].id));
                    }
                    let ghost pre_call = visited@;
                    let ghost children0 = children@;
                    let child = build_tree(all, di, visited);
                    children.push(child);
                    proof {
                        idxs = idxs.push(j as int);
                        assert(children@ =~= children0.push(child));
                        assert(forall|k: int| 0 <= k < children0.len()
                            ==> children@[k] == children0[k]);
                        assert(children@[children@.len() - 1] == child);
                        assert(child.id == d);
                        assert(deps.contains(child.id)) by {
                            assert(deps[j as int] == child.id);
                        };
                        assert(in_tree(child, d));
                        // The grown visited set is the old one plus the new
                        // subtree's ids.
                        assert forall|v: u32| #[trigger] visited@.contains(v)
                            implies visited0.contains(v) || v == current_id
                                || exists|k: int| 0 <= k < children@.len()
                                    && in_tree(#[trigger] children@[k], v) by {
                            if !pre_call.contains(v) {
                                assert(in_tree(child, v));
                                assert(in_tree(children@[children@.len() - 1], v));
                            } else {
                                if !(visited0.contains(v) || v == current_id) {
                                    let k = choose|k: int| 0 <= k < children0.len()
                                        && in_tree(#[trigger] children0[k], v);
                                    assert(in_tree(children@[k], v));
                                }
                            }
                        };
                        assert forall|v: u32| visited0.contains(v) || v == current_id
                            || exists|k: int| 0 <= k < children@.len()
                                && in_tree(#[trigger] children@[k], v)
                            implies #[trigger] visited@.contains(v) by {
                            if visited0.contains(v) || v == current_id {
                                assert(pre_call.contains(v));
                            } else {
                                let k = choose|k: int| 0 <= k < children@.len()
                                    && in_tree(#[trigger] children@[k], v);
                                if k < children0.len() {
                                    assert(pre_call.contains(v));
                                } else {
                                    assert(in_tree(child, v));
                                }
                            }
                        };
                        assert(visited@.contains(d));
                    }
                },
                None => {},
            }
        } else {
            proof {
                assert(visited@.contains(d));
            }
        }
        j += 1;
    }
    let node = TreeNode {
        id: current_id,
        title: clone_string(&all[ti].title),
        status: all[ti].status,
        children,
    };
    proof {
        assert(node.children@.len() == idxs.len());
        assert(tree_matches(g, node)) by {
            assert(g[ti as int].id == node.id && node.title@ == g[ti as int].title
                && node.status == g[ti as int].status);
        };
        assert forall|v: u32| #[trigger] visited@.contains(v)
            implies visited0.contains(v) || in_tree(node, v) by {
            if !visited0.contains(v) {
                assert(v == current_id || exists|k: int| 0 <= k < node.children@.len()
                    && in_tree(#[trigger] node.children@[k], v));
            }
        };
        assert forall|v: u32| visited0.contains(v) || in_tree(node, v)
            implies #[trigger] visited@.contains(v) by {
            if !visited0.contains(v) {
                assert(in_tree(node, v));
                assert(v == node.id || exists|k: int| 0 <= k < node.children@.len()
                    && in_tree(#[trigger] node.children@[k], v));
            }
        };
    }
    node
}

} // verus!

