//! The priority scoring engine: four normalized signals, a dominant blocked
//! penalty, a deterministic total order, and display factors.
//!
//! Signals are integers in thousandths, from 0 to 10000 (meaning 0.0 to
//! 10.0). Weights are in thousandths too, so a weighted score is in
//! millionths; the blocked penalty of -1000.0 is -1_000_000_000 millionths,
//! which dominates any realistic weighted sum.

use vstd::prelude::*;

use crate::config::{Config, Weights};
use crate::dependency::{
    active_dep, blocking_ids, get_blocking_tasks, is_blocked, models, spec_blocked, unique_ids,
};
use crate::dates::{opt_ts_le, ts_le, timestamp_le};
use crate::task::{
    clone_string, clone_task, spec_parse_estimate, spec_to_hours, Estimate, Task, TaskM,
};

verus! {

/// The blocked penalty, in millionths: -1000.0. It must dominate any
/// realistic weighted sum so blocked tasks sort after all unblocked ones.
pub const BLOCKED_PENALTY_MICRO: i64 = -1000000000;

/// Urgency by days remaining: 10.0 when due now or overdue, 0.0 from 30
/// days out, linear in between.
pub open spec fn urgency_value(days: int) -> int {
    if days <= 0 {
        10000
    } else if days >= 30 {
        0
    } else {
        (10000 * (30 - days)) / 30
    }
}

/// Urgency of an optional due day: no due date means no urgency.
pub open spec fn spec_urgency(due: Option<u32>, today: u32) -> int {
    match due {
        None => 0,
        Some(d) => urgency_value(d - today),
    }
}

/// Calculate the urgency signal from the due day and today's day number.
pub fn urgency_signal(due: Option<u32>, today: u32) -> (r: u32)
    ensures
        r == spec_urgency(due, today),
        r <= 10000,
{
    match due {
        None => 0,
        Some(d) => {
            let days: i64 = d as i64 - today as i64;
            if days <= 0 {
                10000
            } else if days >= 30 {
                0
            } else {
                ((10000 * (30 - days)) / 30) as u32
            }
        },
    }
}

/// Blocking signal by count of waiting tasks: 0.0 at none, 10.0 from five.
pub open spec fn blocking_value(count: int) -> int {
    if count <= 0 {
        0
    } else if count >= 5 {
        10000
    } else {
        (10000 * count) / 5
    }
}

/// Calculate the blocking signal: how many unfinished tasks wait on this one.
pub fn blocking_signal(task_id: u32, all_tasks: &Vec<Task>) -> (r: u32)
    ensures
        r == blocking_value(blocking_ids(models(all_tasks@), task_id).len() as int),
        r <= 10000,
{
    let count = get_blocking_tasks(task_id, all_tasks).len();
    if count == 0 {
        0
    } else if count >= 5 {
        10000
    } else {
        ((10000 * (count as u64)) / 5) as u32
    }
}

/// Staleness by days since the last update: 0.0 fresh, 10.0 from 14 days.
pub open spec fn staleness_value(days: int) -> int {
    if days <= 0 {
        0
    } else if days >= 14 {
        10000
    } else {
        (10000 * days) / 14
    }
}

/// Calculate the staleness signal from the day of the last update.
pub fn staleness_signal(updated_day: u32, today: u32) -> (r: u32)
    ensures
        r == staleness_value(today - updated_day),
        r <= 10000,
{
    let days: i64 = today as i64 - updated_day as i64;
    if days <= 0 {
        0
    } else if days >= 14 {
        10000
    } else {
        ((10000 * days) / 14) as u32
    }
}

/// Quick-win by hours (in thousandths): 10.0 up to half an hour, 0.0 from
/// eight hours, linear in between.
pub open spec fn qw_value(hours: int) -> int {
    if hours <= 500 {
        10000
    } else if hours >= 8000 {
        0
    } else {
        (10000 * (8000 - hours)) / 8000
    }
}

/// Quick-win of an optional estimate text: absent or unparsable means 0.
pub open spec fn spec_quick_win(est: Option<Seq<char>>, point_to_hours: u32) -> int {
    match est {
        None => 0,
        Some(s) => match spec_parse_estimate(s) {
            None => 0,
            Some(e) => qw_value(spec_to_hours(e, point_to_hours)),
        },
    }
}

/// Calculate the quick-win signal from the estimate text.
pub fn quick_win_signal(estimate: Option<&str>, point_to_hours: u32) -> (r: u32)
    ensures
        r == spec_quick_win(
            match estimate {
                Some(s) => Some(s@),
                None => None,
            },
            point_to_hours,
        ),
        r <= 10000,
{
    let s = match estimate {
        Some(s) => s,
        None => {
            return 0;
        },
    };
    let est = match Estimate::parse(s) {
        Ok(e) => e,
        Err(_) => {
            return 0;
        },
    };
    let hours = est.to_hours(point_to_hours);
    if hours <= 500 {
        10000
    } else if hours >= 8000 {
        0
    } else {
        ((10000 * (8000 - hours)) / 8000) as u32
    }
}

/// Calculate the blocked penalty: the dominant constant when blocked.
pub fn blocked_penalty(task: &Task, all_tasks: &Vec<Task>) -> (r: i64)
    requires
        unique_ids(models(all_tasks@)),
    ensures
        r == if spec_blocked(task@, models(all_tasks@)) {
            BLOCKED_PENALTY_MICRO as int
        } else {
            0
        },
{
    if is_blocked(task, all_tasks) {
        BLOCKED_PENALTY_MICRO
    } else {
        0
    }
}

/// The total score of a task, in millionths: the weighted sum of the four
/// signals plus the blocked penalty.
pub open spec fn spec_score(t: TaskM, g: Seq<TaskM>, w: Weights, point_to_hours: u32, today: u32)
    -> int {
    w.urgency * spec_urgency(t.due, today)
        + w.blocking * blocking_value(blocking_ids(g, t.id).len() as int)
        + w.staleness * staleness_value(today - t.updated_at.day)
        + w.quick_win * spec_quick_win(t.estimate, point_to_hours)
        + if spec_blocked(t, g) { BLOCKED_PENALTY_MICRO as int } else { 0 }
}

/// A weighted signal stays below 2^46.
proof fn lemma_weighted_bound(w: u32, s: int)
    requires
        0 <= s <= 10000,
    ensures
        0 <= w * s <= 0x400000000000,
    decreases w,
{
    assert(0 <= w * s <= 0x400000000000) by (nonlinear_arith)
        requires
            0 <= s <= 10000,
            0 <= w <= u32::MAX as int,
    ;
}

/// Compute the total score of a task against the snapshot.
pub fn total_score(task: &Task, all_tasks: &Vec<Task>, config: &Config, today: u32) -> (r: i64)
    requires
        unique_ids(models(all_tasks@)),
    ensures
        r == spec_score(
            task@,
            models(all_tasks@),
            config.priority.weights,
            config.estimate.point_to_hours,
            today,
        ),
{
    let w = &config.priority.weights;
    let urgency = urgency_signal(task.due, today) as i64;
    let blocking = blocking_signal(task.id, all_tasks) as i64;
    let staleness = staleness_signal(task.updated_at.day, today) as i64;
    let quick_win = quick_win_signal(
        match &task.estimate {
            Some(e) => Some(e.as_str()),
            None => None,
        },
        config.estimate.point_to_hours,
    ) as i64;
    let penalty = blocked_penalty(task, all_tasks);
    proof {
        lemma_weighted_bound(w.urgency, urgency as int);
        lemma_weighted_bound(w.blocking, blocking as int);
        lemma_weighted_bound(w.staleness, staleness as int);
        lemma_weighted_bound(w.quick_win, quick_win as int);
    }
    (w.urgency as i64) * urgency + (w.blocking as i64) * blocking
        + (w.staleness as i64) * staleness + (w.quick_win as i64) * quick_win + penalty
}

/// Decreasing the days remaining toward the due date never decreases the
/// urgency signal.
pub proof fn lemma_urgency_monotone(fewer: int, more: int)
    requires
        fewer <= more,
    ensures
        urgency_value(fewer) >= urgency_value(more),
{
    if 0 < fewer <= more < 30 {
        assert((10000 * (30 - fewer)) / 30 >= (10000 * (30 - more)) / 30) by (nonlinear_arith)
            requires
                0 < fewer <= more < 30,
        ;
    }
}

/// Increasing the count of waiting tasks never decreases the blocking
/// signal.
pub proof fn lemma_blocking_monotone(fewer: int, more: int)
    requires
        fewer <= more,
    ensures
        blocking_value(fewer) <= blocking_value(more),
{
    if 0 < fewer <= more < 5 {
        assert((10000 * fewer) / 5 <= (10000 * more) / 5) by (nonlinear_arith)
            requires
                0 < fewer <= more < 5,
        ;
    }
}

/// The total order on tasks: pinned before unpinned; among pinned tasks,
/// ascending pin time; then descending score; ties broken by ascending
/// creation time.
pub open spec fn spec_le(
    a: TaskM,
    b: TaskM,
    g: Seq<TaskM>,
    w: Weights,
    point_to_hours: u32,
    today: u32,
) -> bool {
    if a.pinned && !b.pinned {
        true
    } else if !a.pinned && b.pinned {
        false
    } else if a.pinned && b.pinned && a.pinned_at != b.pinned_at {
        opt_ts_le(a.pinned_at, b.pinned_at)
    } else {
        let sa = spec_score(a, g, w, point_to_hours, today);
        let sb = spec_score(b, g, w, point_to_hours, today);
        if sa != sb {
            sa > sb
        } else {
            ts_le(a.created_at, b.created_at)
        }
    }
}

/// The order is total.
pub proof fn lemma_le_total(a: TaskM, b: TaskM, g: Seq<TaskM>, w: Weights, r: u32, today: u32)
    ensures
        spec_le(a, b, g, w, r, today) || spec_le(b, a, g, w, r, today),
{
}

/// The order is transitive.
pub proof fn lemma_le_trans(
    a: TaskM,
    b: TaskM,
    c: TaskM,
    g: Seq<TaskM>,
    w: Weights,
    r: u32,
    today: u32,
)
    requires
        spec_le(a, b, g, w, r, today),
        spec_le(b, c, g, w, r, today),
    ensures
        spec_le(a, c, g, w, r, today),
{
}

/// Among tasks with equal score, pinned state and pin time, the order is
/// always ascending creation time: nothing beyond these rules is ambiguous.
pub proof fn lemma_order_deterministic(
    a: TaskM,
    b: TaskM,
    g: Seq<TaskM>,
    w: Weights,
    point_to_hours: u32,
    today: u32,
)
    requires
        spec_le(a, b, g, w, point_to_hours, today),
        a.pinned == b.pinned,
        a.pinned_at == b.pinned_at,
        spec_score(a, g, w, point_to_hours, today) == spec_score(b, g, w, point_to_hours, today),
    ensures
        ts_le(a.created_at, b.created_at),
{
}

/// Compare two tasks in the total order.
fn task_le(a: &Task, b: &Task, all_tasks: &Vec<Task>, config: &Config, today: u32) -> (r: bool)
    requires
        unique_ids(models(all_tasks@)),
    ensures
        r == spec_le(
            a@,
            b@,
            models(all_tasks@),
            config.priority.weights,
            config.estimate.point_to_hours,
            today,
        ),
{
    if a.pinned && !b.pinned {
        return true;
    }
    if !a.pinned && b.pinned {
        return false;
    }
    if a.pinned && b.pinned {
        let times_equal = match (&a.pinned_at, &b.pinned_at) {
            (None, None) => true,
            (Some(x), Some(y)) => x.day == y.day && x.secs == y.secs,
            _ => false,
        };
        if !times_equal {
            let r = match (&a.pinned_at, &b.pinned_at) {
                (None, _) => true,
                (Some(_), None) => false,
                (Some(x), Some(y)) => timestamp_le(x, y),
            };
            return r;
        }
    }
    let sa = total_score(a, all_tasks, config, today);
    let sb = total_score(b, all_tasks, config, today);
    if sa != sb {
        sa > sb
    } else {
        timestamp_le(&a.created_at, &b.created_at)
    }
}

/// Two tasks the order does not separate: each may precede the other.
pub open spec fn order_tied(
    a: TaskM,
    b: TaskM,
    g: Seq<TaskM>,
    w: Weights,
    point_to_hours: u32,
    today: u32,
) -> bool {
    spec_le(a, b, g, w, point_to_hours, today) && spec_le(b, a, g, w, point_to_hours, today)
}

/// `perm` witnesses that `after` is a stable permutation of `before`:
/// position `k` of the output came from position `perm[k]` of the input,
/// and tied elements keep their input order.
pub open spec fn stable_perm(
    before: Seq<TaskM>,
    after: Seq<TaskM>,
    perm: Seq<int>,
    g: Seq<TaskM>,
    w: Weights,
    point_to_hours: u32,
    today: u32,
) -> bool {
    &&& perm.len() == before.len()
    &&& after.len() == before.len()
    &&& perm.no_duplicates()
    &&& (forall|k: int| 0 <= k < perm.len() ==> 0 <= #[trigger] perm[k] < perm.len()
        && after[k] == before[perm[k]])
    &&& (forall|k: int, l: int| 0 <= k < l < perm.len()
        && #[trigger] order_tied(after[k], after[l], g, w, point_to_hours, today)
        ==> perm[k] < perm[l])
}

/// Sort the given tasks in the deterministic total order: pinned first by
/// ascending pin time, then descending score, ties by ascending creation
/// time. Scores are computed against the full snapshot `all_tasks`. The
/// sort is stable: some permutation maps the output to the input and keeps
/// the input order of every fully tied pair.
pub fn sort_tasks_with_date(
    tasks: &mut Vec<Task>,
    all_tasks: &Vec<Task>,
    config: &Config,
    today: u32,
)
    requires
        unique_ids(models(all_tasks@)),
    ensures
        final(tasks)@.len() == old(tasks)@.len(),
        models(final(tasks)@).to_multiset() == models(old(tasks)@).to_multiset(),
        forall|x: int, y: int| 0 <= x < y < final(tasks)@.len() ==> spec_le(
            models(final(tasks)@)[x],
            models(final(tasks)@)[y],
            models(all_tasks@),
            config.priority.weights,
            config.estimate.point_to_hours,
            today,
        ),
        exists|perm: Seq<int>| #[trigger] stable_perm(
            models(old(tasks)@),
            models(final(tasks)@),
            perm,
            models(all_tasks@),
            config.priority.weights,
            config.estimate.point_to_hours,
            today,
        ),
{
    let ghost g = models(all_tasks@);
    let ghost w = config.priority.weights;
    let ghost rr = config.estimate.point_to_hours;
    let ghost m0 = models(old(tasks)@);
    let n = tasks.len();
    let ghost mut perm: Seq<int> = Seq::new(n as nat, |k: int| k);
    proof {
        assert(perm.no_duplicates()) by {
            assert(forall|x: int, y: int| 0 <= x < perm.len() && 0 <= y < perm.len()
                && x != y ==> #[trigger] perm[x] != #[trigger] perm[y]);
        };
    }
    if n <= 1 {
        proof {
            assert(models(tasks@).to_multiset() =~= m0.to_multiset());
            assert(stable_perm(m0, models(tasks@), perm, g, w, rr, today));
        }
        return;
    }
    let mut i: usize = 1;
    while i < n
        invariant
            1 <= i <= n == tasks@.len(),
            unique_ids(g),
            g == models(all_tasks@),
            w == config.priority.weights,
            rr == config.estimate.point_to_hours,
            m0 == models(old(tasks)@),
            models(tasks@).to_multiset() == m0.to_multiset(),
            forall|x: int, y: int| 0 <= x < y < i
                ==> spec_le(#[trigger] models(tasks@)[x], #[trigger] models(tasks@)[y],
                    g, w, rr, today),
            perm.len() == n,
            perm.no_duplicates(),
            forall|k: int| 0 <= k < n ==> 0 <= #[trigger] perm[k] < n
                && models(tasks@)[k] == m0[perm[k]],
            forall|k: int, l: int| 0 <= k < l < n
                && #[trigger] order_tied(models(tasks@)[k], models(tasks@)[l],
                    g, w, rr, today) ==> perm[k] < perm[l],
        decreases n - i,
    {
        let mut j: usize = i;
        while j > 0
            invariant
                0 <= j <= i < n == tasks@.len(),
                unique_ids(g),
                g == models(all_tasks@),
                w == config.priority.weights,
                rr == config.estimate.point_to_hours,
                m0 == models(old(tasks)@),
                models(tasks@).to_multiset() == m0.to_multiset(),
                forall|x: int, y: int| 0 <= x < y <= i && y != j
                    ==> spec_le(#[trigger] models(tasks@)[x], #[trigger] models(tasks@)[y],
                        g, w, rr, today),
                forall|y: int| j < y <= i
                    ==> spec_le(models(tasks@)[j as int], #[trigger] models(tasks@)[y],
                        g, w, rr, today),
                perm.len() == n,
                perm.no_duplicates(),
                forall|k: int| 0 <= k < n ==> 0 <= #[trigger] perm[k] < n
                    && models(tasks@)[k] == m0[perm[k]],
                forall|k: int, l: int| 0 <= k < l < n
                    && #[trigger] order_tied(models(tasks@)[k], models(tasks@)[l],
                        g, w, rr, today) ==> perm[k] < perm[l],
            ensures
                tasks@.len() == n,
                models(tasks@).to_multiset() == m0.to_multiset(),
                forall|x: int, y: int| 0 <= x < y <= i
                    ==> spec_le(#[trigger] models(tasks@)[x], #[trigger] models(tasks@)[y],
                        g, w, rr, today),
                perm.len() == n,
                perm.no_duplicates(),
                forall|k: int| 0 <= k < n ==> 0 <= #[trigger] perm[k] < n
                    && models(tasks@)[k] == m0[perm[k]],
                forall|k: int, l: int| 0 <= k < l < n
                    && #[trigger] order_tied(models(tasks@)[k], models(tasks@)[l],
                        g, w, rr, today) ==> perm[k] < perm[l],
            decreases j,
        {
            if task_le(&tasks[j - 1], &tasks[j], all_tasks, config, today) {
                proof {
                    // The element found its place: the prefix up to i is
                    // sorted by transitivity.
                    assert forall|x: int, y: int| 0 <= x < y <= i
                        implies spec_le(#[trigger] models(tasks@)[x],
                            #[trigger] models(tasks@)[y], g, w, rr, today) by {
                        if y == j {
                            if x < j - 1 {
                                lemma_le_trans(models(tasks@)[x], models(tasks@)[j - 1],
                                    models(tasks@)[j as int], g, w, rr, today);
                            }
                        }
                    };
                }
                break;
            }
            proof {
                lemma_le_total(models(tasks@)[j - 1], models(tasks@)[j as int], g, w, rr, today);
            }
            let ghost mpre = models(tasks@);
            let ghost ppre = perm;
            let left = clone_task(&tasks[j - 1]);
            let right = clone_task(&tasks[j]);
            tasks.set(j - 1, right);
            tasks.set(j, left);
            proof {
                broadcast use vstd::seq_lib::group_to_multiset_ensures;

                let mnew = models(tasks@);
                assert(mnew =~= mpre.update(j - 1, mpre[j as int]).update(j as int, mpre[j - 1]));
                assert(mnew.to_multiset() =~= mpre.to_multiset());
                // The swapped pair was not tied, so swapping keeps every
                // tied pair in input order.
                let pa = ppre[j - 1];
                let pb = ppre[j as int];
                perm = ppre.update(j - 1, pb).update(j as int, pa);
                assert(perm.no_duplicates()) by {
                    assert forall|x: int, y: int| 0 <= x < perm.len() && 0 <= y < perm.len()
                        && x != y implies #[trigger] perm[x] != #[trigger] perm[y] by {
                        if x == j - 1 || x == j || y == j - 1 || y == j {
                            assert(ppre[j - 1] != ppre[j as int]);
                        }
                    };
                };
                assert forall|k: int| 0 <= k < n implies 0 <= #[trigger] perm[k] < n
                    && mnew[k] == m0[perm[k]] by {
                    if k != j - 1 && k != j {
                        assert(perm[k] == ppre[k] && mnew[k] == mpre[k]);
                    }
                };
                assert(!order_tied(mpre[j - 1], mpre[j as int], g, w, rr, today));
                assert forall|k: int, l: int| 0 <= k < l < n
                    && #[trigger] order_tied(mnew[k], mnew[l], g, w, rr, today)
                    implies perm[k] < perm[l] by {
                    if k == j - 1 && l == j {
                        assert(order_tied(mpre[j - 1], mpre[j as int], g, w, rr, today));
                    } else if l == j - 1 {
                        assert(order_tied(mpre[k], mpre[j as int], g, w, rr, today));
                    } else if l == j {
                        if k == j - 1 {
                        } else {
                            assert(order_tied(mpre[k], mpre[j - 1], g, w, rr, today));
                        }
                    } else if k == j - 1 {
                        assert(order_tied(mpre[j as int], mpre[l], g, w, rr, today));
                    } else if k == j {
                        assert(order_tied(mpre[j - 1], mpre[l], g, w, rr, today));
                    } else {
                        assert(order_tied(mpre[k], mpre[l], g, w, rr, today));
                    }
                };
            }
            j -= 1;
        }
        i += 1;
    }
    proof {
        assert(stable_perm(m0, models(tasks@), perm, g, w, rr, today));
    }
}

/// One display factor of a task's priority.
#[derive(Debug)]
pub enum Factor {
    /// The task is due: how many days are left (negative when overdue).
    Due { days_left: i64 },
    /// How many unfinished tasks this one blocks.
    Blocks { count: usize },
    /// The task carries an estimate.
    Estimate(String),
    /// The task is pinned.
    Pinned,
    /// The unfinished dependencies the task waits on.
    BlockedBy(Vec<u32>),
}

/// The model of a display factor.
#[verifier::ext_equal]
pub ghost enum FactorM {
    Due { days_left: int },
    Blocks { count: int },
    Estimate(Seq<char>),
    Pinned,
    BlockedBy(Seq<u32>),
}

impl View for Factor {
    type V = FactorM;

    open spec fn view(&self) -> FactorM {
        match self {
            Factor::Due { days_left } => FactorM::Due { days_left: *days_left as int },
            Factor::Blocks { count } => FactorM::Blocks { count: *count as int },
            Factor::Estimate(e) => FactorM::Estimate(e@),
            Factor::Pinned => FactorM::Pinned,
            Factor::BlockedBy(d) => FactorM::BlockedBy(d@),
        }
    }
}

/// The summary factors of a task, in fixed priority order — due date,
/// blocking count, estimate, pinned flag, blocked-by list — truncated to
/// the first three present.
pub open spec fn spec_summary(t: TaskM, g: Seq<TaskM>, today: u32) -> Seq<FactorM> {
    let due_part: Seq<FactorM> = match t.due {
        Some(d) => seq![FactorM::Due { days_left: d - today }],
        None => Seq::empty(),
    };
    let bl = blocking_ids(g, t.id);
    let blocks_part: Seq<FactorM> = if bl.len() > 0 {
        seq![FactorM::Blocks { count: bl.len() as int }]
    } else {
        Seq::empty()
    };
    let est_part: Seq<FactorM> = match t.estimate {
        Some(e) => seq![FactorM::Estimate(e)],
        None => Seq::empty(),
    };
    let pin_part: Seq<FactorM> = if t.pinned {
        seq![FactorM::Pinned]
    } else {
        Seq::empty()
    };
    let blocked_part: Seq<FactorM> = if spec_blocked(t, g) {
        seq![FactorM::BlockedBy(t.depends_on.filter(|d: u32| active_dep(g, d)))]
    } else {
        Seq::empty()
    };
    let full = due_part + blocks_part + est_part + pin_part + blocked_part;
    if full.len() <= 3 {
        full
    } else {
        full.take(3)
    }
}

/// Collect the unfinished dependencies the task waits on, in list order.
fn collect_blockers(task: &Task, all_tasks: &Vec<Task>) -> (r: Vec<u32>)
    requires
        unique_ids(models(all_tasks@)),
    ensures
        r@ == task@.depends_on.filter(|d: u32| active_dep(models(all_tasks@), d)),
{
    let ghost g = models(all_tasks@);
    let ghost deps = task@.depends_on;
    let mut out: Vec<u32> = Vec::new();
    let mut k: usize = 0;
    while k < task.depends_on.len()
        invariant
            0 <= k <= deps.len(),
            task@.depends_on == deps,
            g == models(all_tasks@),
            unique_ids(g),
            out@ == deps.subrange(0, k as int).filter(|d: u32| active_dep(g, d)),
        decreases deps.len() - k,
    {
        let d = task.depends_on[k];
        let active = crate::dependency::dep_active(all_tasks, d);
        proof {
            reveal(Seq::filter);
            assert(deps.subrange(0, k + 1).drop_last() =~= deps.subrange(0, k as int));
            assert(deps.subrange(0, k + 1).last() == d);
        }
        if active {
            out.push(d);
        }
        k += 1;
    }
    proof {
        assert(deps.subrange(0, deps.len() as int) =~= deps);
    }
    out
}

/// Generate the summary factors for display: at most three, in fixed
/// priority order, included only when applicable.
pub fn generate_summary(task: &Task, all_tasks: &Vec<Task>, today: u32) -> (r: Vec<Factor>)
    requires
        unique_ids(models(all_tasks@)),
    ensures
        r@.map_values(|f: Factor| f@) == spec_summary(task@, models(all_tasks@), today),
{
    let ghost g = models(all_tasks@);
    let ghost t = task@;
    let ghost due_part: Seq<FactorM> = match t.due {
        Some(d) => seq![FactorM::Due { days_left: d - today }],
        None => Seq::empty(),
    };
    let ghost bl = blocking_ids(g, t.id);
    let ghost blocks_part: Seq<FactorM> = if bl.len() > 0 {
        seq![FactorM::Blocks { count: bl.len() as int }]
    } else {
        Seq::empty()
    };
    let ghost est_part: Seq<FactorM> = match t.estimate {
        Some(e) => seq![FactorM::Estimate(e)],
        None => Seq::empty(),
    };
    let ghost pin_part: Seq<FactorM> = if t.pinned {
        seq![FactorM::Pinned]
    } else {
        Seq::empty()
    };
    let ghost blocked_part: Seq<FactorM> = if spec_blocked(t, g) {
        seq![FactorM::BlockedBy(t.depends_on.filter(|d: u32| active_dep(g, d)))]
    } else {
        Seq::empty()
    };

    let mut factors: Vec<Factor> = Vec::new();

    if let Some(d) = task.due {
        factors.push(Factor::Due { days_left: d as i64 - today as i64 });
    }
    proof {
        assert(factors@.map_values(|f: Factor| f@) =~= due_part);
    }

    let blocking = get_blocking_tasks(task.id, all_tasks);
    if blocking.len() > 0 {
        factors.push(Factor::Blocks { count: blocking.len() });
    }
    proof {
        assert(factors@.map_values(|f: Factor| f@) =~= due_part + blocks_part);
    }

    match &task.estimate {
        Some(e) => {
            factors.push(Factor::Estimate(clone_string(e)));
        },
        None => {},
    }
    proof {
        assert(factors@.map_values(|f: Factor| f@) =~= due_part + blocks_part + est_part);
    }

    if task.pinned {
        factors.push(Factor::Pinned);
    }
    proof {
        assert(factors@.map_values(|f: Factor| f@)
            =~= due_part + blocks_part + est_part + pin_part);
    }

    if is_blocked(task, all_tasks) {
        let blockers = collect_blockers(task, all_tasks);
        factors.push(Factor::BlockedBy(blockers));
    }
    proof {
        assert(factors@.map_values(|f: Factor| f@)
            =~= due_part + blocks_part + est_part + pin_part + blocked_part);
    }

    let ghost full = factors@.map_values(|f: Factor| f@);
    factors.truncate(3);
    proof {
        let after = factors@.map_values(|f: Factor| f@);
        if full.len() <= 3 {
            assert(after =~= full);
        } else {
            assert(after =~= full.take(3));
        }
        assert(after =~= spec_summary(task@, models(all_tasks@), today));
    }
    factors
}

/// A task's score together with its display factors.
#[derive(Debug)]
pub struct ScoreResult {
    pub score: i64,
    pub primary_factors: Vec<Factor>,
}

/// Calculate the total score and the summary factors of a task against the
/// snapshot, for a given day.
pub fn calculate_score_with_date(
    task: &Task,
    all_tasks: &Vec<Task>,
    config: &Config,
    today: u32,
) -> (r: ScoreResult)
    requires
        unique_ids(models(all_tasks@)),
    ensures
        r.score == spec_score(
            task@,
            models(all_tasks@),
            config.priority.weights,
            config.estimate.point_to_hours,
            today,
        ),
        r.primary_factors@.map_values(|f: Factor| f@)
            == spec_summary(task@, models(all_tasks@), today),
{
    let score = total_score(task, all_tasks, config, today);
    let primary_factors = generate_summary(task, all_tasks, today);
    ScoreResult { score, primary_factors }
}

} // verus!
