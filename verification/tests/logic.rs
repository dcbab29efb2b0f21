//! The graph service, the scoring engine, the record codec, the store,
//! and due-date expressions.

use chrono::Datelike;
use taskctl::config::Config;
use taskctl::dates::{parse_due, Timestamp};
use taskctl::dependency::{
    add_dependency, get_blocking_tasks, get_dependency_tree, is_blocked, remove_dependency,
};
use taskctl::error::TaskCtlError;
use taskctl::markdown::{parse, serialize};
use taskctl::repository::{FileOp, Repository, TaskInit};
use taskctl::scoring::{
    blocked_penalty, blocking_signal, calculate_score_with_date, generate_summary,
    quick_win_signal, sort_tasks_with_date, staleness_signal, urgency_signal, Factor,
};
use taskctl::status::Status;
use taskctl::task::{Task, TaskWithNote};

fn ts(day: u32) -> Timestamp {
    Timestamp { day, secs: 36000 }
}

fn today() -> u32 {
    // 2025-02-05, as a day number.
    day_of(2025, 2, 5)
}

fn day_of(y: i32, m: u32, d: u32) -> u32 {
    chrono::NaiveDate::from_ymd_opt(y, m, d)
        .unwrap()
        .num_days_from_ce() as u32
}

fn make_task(id: u32, deps: Vec<u32>) -> Task {
    let mut t = Task::new(id, format!("Task {id}"), ts(today()));
    t.depends_on = deps;
    t
}

fn make_done_task(id: u32) -> Task {
    let mut t = make_task(id, vec![]);
    t.status = Status::Done;
    t
}

// ----- dependency graph -----

#[test]
fn add_valid_dependency() {
    let tasks = vec![make_task(1, vec![]), make_task(2, vec![])];
    assert!(add_dependency(2, 1, &tasks).is_ok());
}

#[test]
fn self_dependency() {
    let tasks = vec![make_task(1, vec![])];
    assert!(matches!(
        add_dependency(1, 1, &tasks),
        Err(TaskCtlError::SelfDependency(1))
    ));
}

#[test]
fn target_not_found() {
    let tasks = vec![make_task(1, vec![])];
    assert!(matches!(
        add_dependency(1, 99, &tasks),
        Err(TaskCtlError::TaskNotFound(99))
    ));
}

#[test]
fn direct_cycle() {
    let tasks = vec![make_task(1, vec![2]), make_task(2, vec![])];
    assert!(add_dependency(2, 1, &tasks).is_err());
}

#[test]
fn indirect_cycle() {
    let tasks = vec![
        make_task(1, vec![2]),
        make_task(2, vec![3]),
        make_task(3, vec![]),
    ];
    assert!(add_dependency(3, 1, &tasks).is_err());
}

#[test]
fn no_cycle_in_dag() {
    let tasks = vec![
        make_task(1, vec![2, 3]),
        make_task(2, vec![4]),
        make_task(3, vec![4]),
        make_task(4, vec![]),
    ];
    assert!(add_dependency(1, 4, &tasks).is_ok());
}

#[test]
fn is_blocked_with_pending_dep() {
    let tasks = vec![make_task(1, vec![]), make_task(2, vec![1])];
    assert!(is_blocked(&tasks[1], &tasks));
}

#[test]
fn is_not_blocked_with_done_dep() {
    let tasks = vec![make_done_task(1), make_task(2, vec![1])];
    assert!(!is_blocked(&tasks[1], &tasks));
}

#[test]
fn is_not_blocked_no_deps() {
    let tasks = vec![make_task(1, vec![])];
    assert!(!is_blocked(&tasks[0], &tasks));
}

#[test]
fn blocking_tasks() {
    let tasks = vec![
        make_task(1, vec![]),
        make_task(2, vec![1]),
        make_task(3, vec![1]),
        make_done_task(4),
    ];
    let blocking = get_blocking_tasks(1, &tasks);
    assert_eq!(blocking.len(), 2);
    assert!(blocking.contains(&2));
    assert!(blocking.contains(&3));
}

#[test]
fn dependency_dependency_tree() {
    let tasks = vec![
        make_task(1, vec![2, 3]),
        make_task(2, vec![]),
        make_task(3, vec![]),
    ];
    let tree = get_dependency_tree(1, &tasks).unwrap();
    assert_eq!(tree.id, 1);
    assert_eq!(tree.children.len(), 2);
}

#[test]
fn tree_survives_corrupted_cycle() {
    // Corrupted data with a cycle must still terminate.
    let tasks = vec![make_task(1, vec![2]), make_task(2, vec![1])];
    let tree = get_dependency_tree(1, &tasks).unwrap();
    assert_eq!(tree.id, 1);
    assert_eq!(tree.children.len(), 1);
    assert_eq!(tree.children[0].id, 2);
}

#[test]
fn remove_dep() {
    let mut task = make_task(1, vec![2, 3]);
    remove_dependency(&mut task, 2);
    assert_eq!(task.depends_on, vec![3]);
}

// ----- scoring -----

#[test]
fn urgency_no_due() {
    assert_eq!(urgency_signal(None, today()), 0);
}

#[test]
fn urgency_overdue() {
    assert_eq!(urgency_signal(Some(day_of(2025, 2, 1)), today()), 10000);
}

#[test]
fn urgency_today() {
    assert_eq!(urgency_signal(Some(today()), today()), 10000);
}

#[test]
fn urgency_far_future() {
    assert_eq!(urgency_signal(Some(day_of(2025, 4, 1)), today()), 0);
}

#[test]
fn urgency_15_days() {
    assert_eq!(urgency_signal(Some(day_of(2025, 2, 20)), today()), 5000);
}

#[test]
fn blocking_no_tasks() {
    let tasks = vec![make_task(1, vec![])];
    assert_eq!(blocking_signal(1, &tasks), 0);
}

#[test]
fn blocking_five_or_more() {
    let mut tasks = vec![make_task(1, vec![])];
    for i in 2..=6 {
        tasks.push(make_task(i, vec![1]));
    }
    assert_eq!(blocking_signal(1, &tasks), 10000);
}

#[test]
fn staleness_today() {
    assert_eq!(staleness_signal(today(), today()), 0);
}

#[test]
fn staleness_14_days() {
    assert_eq!(staleness_signal(today() - 14, today()), 10000);
}

#[test]
fn staleness_7_days() {
    assert_eq!(staleness_signal(today() - 7, today()), 5000);
}

#[test]
fn quick_win_30m() {
    assert_eq!(quick_win_signal(Some("30m"), 1000), 10000);
}

#[test]
fn quick_win_8h() {
    assert_eq!(quick_win_signal(Some("8h"), 1000), 0);
}

#[test]
fn quick_win_none() {
    assert_eq!(quick_win_signal(None, 1000), 0);
}

#[test]
fn blocked_penalty_not_blocked() {
    let tasks = vec![make_task(1, vec![])];
    assert_eq!(blocked_penalty(&tasks[0], &tasks), 0);
}

#[test]
fn blocked_penalty_is_blocked() {
    let tasks = vec![make_task(1, vec![]), make_task(2, vec![1])];
    assert_eq!(blocked_penalty(&tasks[1], &tasks), -1000000000);
}

#[test]
fn sort_pinned_first() {
    let config = Config::default();
    let mut tasks = vec![make_task(1, vec![]), {
        let mut t = make_task(2, vec![]);
        t.pinned = true;
        t.pinned_at = Some(ts(today()));
        t
    }];
    let all: Vec<Task> = vec![make_task(1, vec![]), {
        let mut t = make_task(2, vec![]);
        t.pinned = true;
        t.pinned_at = Some(ts(today()));
        t
    }];
    sort_tasks_with_date(&mut tasks, &all, &config, today());
    assert_eq!(tasks[0].id, 2);
}

#[test]
fn sort_ties_break_by_created_at() {
    // Equal score and pinned state: ascending creation time decides.
    let config = Config::default();
    let mut a = make_task(1, vec![]);
    a.created_at = ts(today() - 1);
    let mut b = make_task(2, vec![]);
    b.created_at = ts(today() - 3);
    let all = vec![
        {
            let mut t = make_task(1, vec![]);
            t.created_at = ts(today() - 1);
            t
        },
        {
            let mut t = make_task(2, vec![]);
            t.created_at = ts(today() - 3);
            t
        },
    ];
    let mut tasks = vec![a, b];
    sort_tasks_with_date(&mut tasks, &all, &config, today());
    assert_eq!(tasks[0].id, 2);
    assert_eq!(tasks[1].id, 1);
}

#[test]
fn summary_with_due() {
    let mut task = make_task(1, vec![]);
    task.due = Some(today());
    let factors = generate_summary(&task, &vec![], today());
    assert!(factors
        .iter()
        .any(|f| matches!(f, Factor::Due { days_left: 0 })));
}

#[test]
fn summary_max_three() {
    let mut task = make_task(1, vec![99]);
    task.due = Some(today());
    task.estimate = Some("2h".into());
    task.pinned = true;
    let all = vec![taskctl::task::clone_task(&task), make_task(99, vec![])];
    let factors = generate_summary(&task, &all, today());
    assert!(factors.len() <= 3);
}

#[test]
fn score_with_factors() {
    let config = Config::default();
    let mut task = make_task(1, vec![]);
    task.due = Some(today());
    let all = vec![{
        let mut t = make_task(1, vec![]);
        t.due = Some(today());
        t
    }];
    let result = calculate_score_with_date(&task, &all, &config, today());
    // urgency 10.0 at weight 1.0, in millionths.
    assert_eq!(result.score, 10000000);
    assert_eq!(result.primary_factors.len(), 1);
}

// ----- record codec -----

#[test]
fn roundtrip() {
    let mut task = make_task(42, vec![2, 3]);
    task.due = Some(today());
    task.tags = vec!["home".to_string(), "urgent".to_string()];
    task.estimate = Some("1.5h".to_string());
    task.pinned = true;
    task.pinned_at = Some(ts(today()));
    let body = "Some notes here.\n";
    let serialized = serialize(&task, body).unwrap();
    let (parsed, parsed_body) = parse(&serialized, "test.md").unwrap();
    assert_eq!(parsed.id, 42);
    assert_eq!(parsed.title, "Task 42");
    assert_eq!(parsed.status, Status::Pending);
    assert_eq!(parsed.created_at, task.created_at);
    assert_eq!(parsed.updated_at, task.updated_at);
    assert_eq!(parsed.due, Some(today()));
    assert_eq!(parsed.tags, vec!["home".to_string(), "urgent".to_string()]);
    assert_eq!(parsed.estimate, Some("1.5h".to_string()));
    assert_eq!(parsed.depends_on, vec![2, 3]);
    assert!(parsed.pinned);
    assert_eq!(parsed.pinned_at, Some(ts(today())));
    assert_eq!(parsed_body, body);
}

#[test]
fn roundtrip_adds_trailing_newline() {
    let task = make_task(7, vec![]);
    let serialized = serialize(&task, "no newline").unwrap();
    let (_, body) = parse(&serialized, "test.md").unwrap();
    assert_eq!(body, "no newline\n");
}

#[test]
fn parse_valid_front_matter() {
    let task = make_task(1, vec![]);
    let content = serialize(&task, "Some body text.\n").unwrap();
    let (parsed, body) = parse(&content, "test.md").unwrap();
    assert_eq!(parsed.id, 1);
    assert_eq!(parsed.title, "Task 1");
    assert_eq!(body, "Some body text.\n");
}

#[test]
fn parse_no_body() {
    let task = make_task(2, vec![]);
    let content = serialize(&task, "").unwrap();
    let (parsed, body) = parse(&content, "test.md").unwrap();
    assert_eq!(parsed.id, 2);
    assert!(body.is_empty());
}

#[test]
fn parse_missing_front_matter() {
    let result = parse("No front matter here.", "test.md");
    assert!(result.is_err());
}

#[test]
fn parse_missing_closing_delimiter() {
    let result = parse("---\nid: 1\ntitle: Test\n", "test.md");
    assert!(result.is_err());
}

#[test]
fn serialize_with_body() {
    let task = make_task(1, vec![]);
    let result = serialize(&task, "Body text.").unwrap();
    assert!(result.starts_with("---\n"));
    assert!(result.contains("id: 1"));
    assert!(result.contains("title: Task 1"));
    assert!(result.contains("---\n\nBody text.\n"));
}

#[test]
fn serialize_without_body() {
    let task = make_task(2, vec![]);
    let result = serialize(&task, "").unwrap();
    assert!(result.starts_with("---\n"));
    assert!(result.ends_with("---\n"));
}

// ----- store -----

fn empty_init() -> TaskInit {
    TaskInit {
        due: None,
        tags: vec![],
        estimate: None,
        depends_on: vec![],
    }
}

#[test]
fn create_and_read() {
    let mut repo = Repository::new("/tmp/tasks".to_string());
    let (tw, ops) = repo
        .create("Test task".to_string(), ts(today()), empty_init())
        .unwrap();
    assert_eq!(tw.task.id, 1);
    assert_eq!(tw.task.title, "Test task");
    assert_eq!(ops.len(), 2);
    let read = repo.read(1).unwrap();
    assert_eq!(read.task.title, "Test task");
}

#[test]
fn create_multiple() {
    let mut repo = Repository::new("/tmp/tasks".to_string());
    let (t1, _) = repo.create("First".to_string(), ts(today()), empty_init()).unwrap();
    let (t2, _) = repo.create("Second".to_string(), ts(today()), empty_init()).unwrap();
    assert_eq!(t1.task.id, 1);
    assert_eq!(t2.task.id, 2);
}

#[test]
fn read_nonexistent() {
    let repo = Repository::new("/tmp/tasks".to_string());
    assert!(repo.read(99).is_err());
}

#[test]
fn read_all_empty() {
    let repo = Repository::new("/tmp/tasks".to_string());
    assert!(repo.read_all().is_empty());
}

#[test]
fn read_all_with_tasks() {
    let mut repo = Repository::new("/tmp/tasks".to_string());
    repo.create("A".to_string(), ts(today()), empty_init()).unwrap();
    repo.create("B".to_string(), ts(today()), empty_init()).unwrap();
    assert_eq!(repo.read_all().len(), 2);
}

#[test]
fn update_task() {
    let mut repo = Repository::new("/tmp/tasks".to_string());
    let (mut tw, _) = repo
        .create("Original".to_string(), ts(today()), empty_init())
        .unwrap();
    tw.task.title = "Updated".to_string();
    repo.update(&tw).unwrap();
    assert_eq!(repo.read(1).unwrap().task.title, "Updated");
}

#[test]
fn delete_task() {
    let mut repo = Repository::new("/tmp/tasks".to_string());
    repo.create("To delete".to_string(), ts(today()), empty_init()).unwrap();
    let ops = repo.delete(1).unwrap();
    assert!(matches!(&ops[0], FileOp::Remove { .. }));
    assert!(repo.read(1).is_err());
}

#[test]
fn repository_delete_removes_dependency_refs() {
    let mut repo = Repository::new("/tmp/tasks".to_string());
    repo.create("Dep target".to_string(), ts(today()), empty_init()).unwrap();
    repo.create(
        "Dependent".to_string(),
        ts(today()),
        TaskInit {
            due: None,
            tags: vec![],
            estimate: None,
            depends_on: vec![1],
        },
    )
    .unwrap();
    repo.delete(1).unwrap();
    let t2 = repo.read(2).unwrap();
    assert!(t2.task.depends_on.is_empty());
}

#[test]
fn delete_unblocks_dependents() {
    // Deleting task 1, a dependency of 2 and 3, removes it from both
    // lists; both become unblocked when it was their only dependency.
    let mut repo = Repository::new("/tmp/tasks".to_string());
    repo.create("Base".to_string(), ts(today()), empty_init()).unwrap();
    for title in ["Second", "Third"] {
        repo.create(
            title.to_string(),
            ts(today()),
            TaskInit {
                due: None,
                tags: vec![],
                estimate: None,
                depends_on: vec![1],
            },
        )
        .unwrap();
    }
    let before = repo.tasks();
    assert!(is_blocked(&before[1], &before));
    assert!(is_blocked(&before[2], &before));
    repo.delete(1).unwrap();
    let after = repo.tasks();
    assert_eq!(after.len(), 2);
    assert!(after.iter().all(|t| t.depends_on.is_empty()));
    assert!(!is_blocked(&after[0], &after));
    assert!(!is_blocked(&after[1], &after));
}

#[test]
fn load_reads_back_written_files() {
    let mut repo = Repository::new("/tmp/tasks".to_string());
    let (_, ops) = repo
        .create("Persisted".to_string(), ts(today()), empty_init())
        .unwrap();
    let mut contents: Vec<String> = vec![];
    let mut meta_text: Option<String> = None;
    for op in &ops {
        if let FileOp::Write { path, content } = op {
            if path.ends_with(".md") {
                contents.push(content.clone());
            } else {
                meta_text = Some(content.clone());
            }
        }
    }
    let mut loaded =
        Repository::load("/tmp/tasks".to_string(), meta_text.as_ref(), &contents).unwrap();
    let rec = loaded.read(1).unwrap();
    assert_eq!(rec.task.title, "Persisted");
    let (t2, _) = loaded
        .create("Next".to_string(), ts(today()), empty_init())
        .unwrap();
    assert_eq!(t2.task.id, 2);
}

#[test]
fn load_rejects_corrupt_allocator_text() {
    let bad = "not an allocator file".to_string();
    let r = Repository::load("/tmp/tasks".to_string(), Some(&bad), &vec![]);
    assert!(matches!(r, Err(TaskCtlError::ParseError { .. })));
}

#[test]
fn sort_keeps_tied_order() {
    // Fully tied tasks — equal score, pin state and creation time — keep
    // their input order.
    let config = Config::default();
    let mut tasks = vec![make_task(5, vec![]), make_task(3, vec![])];
    let all = vec![make_task(5, vec![]), make_task(3, vec![])];
    sort_tasks_with_date(&mut tasks, &all, &config, today());
    assert_eq!(tasks[0].id, 5);
    assert_eq!(tasks[1].id, 3);
}

#[test]
fn cyclic_error_carries_path() {
    // 1 depends on 2; the reverse edge closes a cycle, and the error
    // message opens with the offending edge's endpoints.
    let tasks = vec![make_task(1, vec![2]), make_task(2, vec![])];
    match add_dependency(2, 1, &tasks) {
        Err(TaskCtlError::CyclicDependency(path)) => {
            assert!(path.starts_with("#2 -> #1"));
        }
        other => panic!("expected a cyclic dependency error, got {other:?}"),
    }
}

// ----- command flows -----

#[test]
fn status_flow_is_idempotent() {
    let mut repo = Repository::new("/tmp/tasks".to_string());
    repo.create("Work".to_string(), ts(today()), empty_init()).unwrap();
    let (_, ops1) =
        taskctl::commands::status::run_start(&mut repo, 1, ts(today())).unwrap();
    assert_eq!(ops1.len(), 1);
    let (_, ops2) =
        taskctl::commands::status::run_start(&mut repo, 1, ts(today() + 1)).unwrap();
    assert!(ops2.is_empty());
    assert_eq!(repo.read(1).unwrap().task.status, Status::InProgress);
}

#[test]
fn pin_flow_is_idempotent() {
    let mut repo = Repository::new("/tmp/tasks".to_string());
    repo.create("Work".to_string(), ts(today()), empty_init()).unwrap();
    let (_, ops1) = taskctl::commands::pin::run_pin(&mut repo, 1, ts(today())).unwrap();
    assert_eq!(ops1.len(), 1);
    let (_, ops2) =
        taskctl::commands::pin::run_pin(&mut repo, 1, ts(today() + 1)).unwrap();
    assert!(ops2.is_empty());
    assert_eq!(repo.read(1).unwrap().task.pinned_at, Some(ts(today())));
    let (_, ops3) = taskctl::commands::pin::run_unpin(&mut repo, 1, ts(today())).unwrap();
    assert_eq!(ops3.len(), 1);
    assert!(!repo.read(1).unwrap().task.pinned);
}

#[test]
fn done_message_lists_unblocked() {
    let mut repo = Repository::new("/tmp/tasks".to_string());
    repo.create("Base".to_string(), ts(today()), empty_init()).unwrap();
    for title in ["Second", "Third"] {
        repo.create(
            title.to_string(),
            ts(today()),
            TaskInit {
                due: None,
                tags: vec![],
                estimate: None,
                depends_on: vec![1],
            },
        )
        .unwrap();
    }
    let (msg, _) = taskctl::commands::status::run_done(&mut repo, 1, ts(today())).unwrap();
    assert_eq!(msg, "Completed task #1\n  Unblocked: #2, #3");
}

#[test]
fn depends_flow() {
    let mut repo = Repository::new("/tmp/tasks".to_string());
    repo.create("One".to_string(), ts(today()), empty_init()).unwrap();
    repo.create("Two".to_string(), ts(today()), empty_init()).unwrap();
    let (msg, ops) =
        taskctl::commands::depends::run_depends(&mut repo, 2, 1, ts(today())).unwrap();
    assert_eq!(msg, "Added dependency: #2 depends on #1");
    assert_eq!(ops.len(), 1);
    assert_eq!(repo.read(2).unwrap().task.depends_on, vec![1]);
    // The reverse edge would close a cycle.
    assert!(taskctl::commands::depends::run_depends(&mut repo, 1, 2, ts(today())).is_err());
    let (_, _) =
        taskctl::commands::depends::run_undepends(&mut repo, 2, 1, ts(today())).unwrap();
    assert!(repo.read(2).unwrap().task.depends_on.is_empty());
}

#[test]
fn next_shows_top_task() {
    let mut repo = Repository::new("/tmp/tasks".to_string());
    let config = Config::default();
    repo.create("Later".to_string(), ts(today()), empty_init()).unwrap();
    repo.create(
        "Urgent".to_string(),
        ts(today()),
        TaskInit {
            due: Some(today()),
            tags: vec![],
            estimate: None,
            depends_on: vec![],
        },
    )
    .unwrap();
    let best = taskctl::commands::next::run(&repo, &config, today()).unwrap();
    assert_eq!(best.id, 2);
}

#[test]
fn next_no_tasks() {
    let repo = Repository::new("/tmp/tasks".to_string());
    let config = Config::default();
    assert!(taskctl::commands::next::run(&repo, &config, today()).is_none());
}

#[test]
fn search_by_title() {
    let mut repo = Repository::new("/tmp/tasks".to_string());
    let config = Config::default();
    repo.create("Fix the login page".to_string(), ts(today()), empty_init()).unwrap();
    repo.create("Write docs".to_string(), ts(today()), empty_init()).unwrap();
    let hits =
        taskctl::commands::search::run(&repo, &config, "LOGIN", None, None, today()).unwrap();
    assert_eq!(hits.len(), 1);
    assert_eq!(hits[0].id, 1);
    assert!(
        taskctl::commands::search::run(&repo, &config, "x", None, Some(&"bogus".to_string()),
            today())
        .is_err()
    );
}

#[test]
fn today_view_keeps_due_and_pinned() {
    let mut repo = Repository::new("/tmp/tasks".to_string());
    let config = Config::default();
    repo.create(
        "Due now".to_string(),
        ts(today()),
        TaskInit {
            due: Some(today()),
            tags: vec![],
            estimate: None,
            depends_on: vec![],
        },
    )
    .unwrap();
    repo.create("Someday".to_string(), ts(today()), empty_init()).unwrap();
    let list = taskctl::commands::today::run(&repo, &config, today());
    assert_eq!(list.len(), 1);
    assert_eq!(list[0].id, 1);
}

// ----- due-date expressions -----

#[test]
fn absolute_date() {
    assert_eq!(
        parse_due("2025-03-15", today()).unwrap(),
        day_of(2025, 3, 15)
    );
}

#[test]
fn today_keyword() {
    assert_eq!(parse_due("today", today()).unwrap(), today());
}

#[test]
fn tomorrow_keyword() {
    assert_eq!(parse_due("tomorrow", today()).unwrap(), day_of(2025, 2, 6));
}

#[test]
fn relative_days() {
    assert_eq!(parse_due("+3d", today()).unwrap(), day_of(2025, 2, 8));
}

#[test]
fn relative_weeks() {
    assert_eq!(parse_due("+1w", today()).unwrap(), day_of(2025, 2, 12));
}

#[test]
fn weekday_friday() {
    assert_eq!(parse_due("friday", today()).unwrap(), day_of(2025, 2, 7));
}

#[test]
fn weekday_monday() {
    assert_eq!(parse_due("monday", today()).unwrap(), day_of(2025, 2, 10));
}

#[test]
fn weekday_wednesday_from_wednesday() {
    assert_eq!(
        parse_due("wednesday", today()).unwrap(),
        day_of(2025, 2, 12)
    );
}

#[test]
fn abbreviated_weekday() {
    assert_eq!(parse_due("fri", today()).unwrap(), day_of(2025, 2, 7));
}

#[test]
fn invalid_input() {
    assert!(parse_due("not-a-date", today()).is_err());
    assert!(parse_due("+xd", today()).is_err());
    assert!(parse_due("", today()).is_err());
}

// ----- configuration defaults -----

#[test]
fn default_weights() {
    let cfg = Config::default();
    assert_eq!(cfg.priority.weights.urgency, 1000);
    assert_eq!(cfg.priority.weights.blocking, 800);
    assert_eq!(cfg.priority.weights.staleness, 500);
    assert_eq!(cfg.priority.weights.quick_win, 300);
}

#[test]
fn default_estimate() {
    let cfg = Config::default();
    assert_eq!(cfg.estimate.point_to_hours, 1000);
}

#[test]
fn default_display() {
    let cfg = Config::default();
    assert!(cfg.display.color);
    assert_eq!(cfg.display.date_format, "%Y-%m-%d");
}
