//! The task store, modelled as an authoritative in-memory snapshot of the
//! one-file-per-task data directory. Every mutation returns the plan of
//! file operations that commits it: the caller performs them, in order,
//! under the directory lock. The cascade a delete plans is a sequence of
//! independent rewrites with no cross-file atomicity.

use vstd::prelude::*;

use crate::dates::Timestamp;
use crate::dependency::{active_dep, models, not_id, spec_blocked, unique_ids};
use crate::error::TaskCtlError;
use crate::markdown::{decode_spec, encode_record, serialize, parse};
use crate::meta::{meta_chars, spec_parse_meta, Meta};
use crate::numtext::{dec_digits, push_dec};
use crate::status::Status;
use crate::task::{
    clone_record, clone_string, no_nl, wf_task, RecordM, Task, TaskM, TaskWithNote,
    SCHEMA_VERSION,
};

verus! {

broadcast use vstd::string::group_string_axioms;

/// One step of a commit plan.
#[derive(Debug)]
pub enum FileOp {
    /// Write this content to this path.
    Write { path: String, content: String },
    /// Remove the file at this path.
    Remove { path: String },
}

/// The model of a commit step.
#[verifier::ext_equal]
pub ghost enum FileOpM {
    Write { path: Seq<char>, content: Seq<char> },
    Remove { path: Seq<char> },
}

impl View for FileOp {
    type V = FileOpM;

    open spec fn view(&self) -> FileOpM {
        match self {
            FileOp::Write { path, content } => FileOpM::Write { path: path@, content: content@ },
            FileOp::Remove { path } => FileOpM::Remove { path: path@ },
        }
    }
}

/// The model of the store.
#[verifier::ext_equal]
pub ghost struct RepoM {
    pub data_dir: Seq<char>,
    pub records: Seq<RecordM>,
    pub next_id: u32,
}

/// The attributes a caller sets on a freshly created task.
#[derive(Debug)]
pub struct TaskInit {
    pub due: Option<u32>,
    pub tags: Vec<String>,
    pub estimate: Option<String>,
    pub depends_on: Vec<u32>,
}

/// Whether the given creation attributes are storable: single-line text.
pub open spec fn wf_init(due: Option<u32>, tags: Seq<Seq<char>>, estimate: Option<Seq<char>>)
    -> bool {
    &&& (forall|i: int| 0 <= i < tags.len() ==> no_nl(#[trigger] tags[i]))
    &&& (estimate matches Some(e) ==> no_nl(e))
}

/// The path of a task file: `<dir>/<id>.md`.
pub open spec fn path_chars(dir: Seq<char>, id: u32) -> Seq<char> {
    dir + "/"@ + dec_digits(id as nat) + ".md"@
}

/// The path of the allocator file: `<dir>/.meta.json`.
pub open spec fn meta_path_chars(dir: Seq<char>) -> Seq<char> {
    dir + "/.meta.json"@
}

/// The rewrite plan a delete produces: one write per record that listed
/// the deleted id, in id order, each with that id filtered out.
pub open spec fn cascade_ops(dir: Seq<char>, recs: Seq<RecordM>, id: u32) -> Seq<FileOpM>
    decreases recs.len(),
{
    if recs.len() == 0 {
        Seq::empty()
    } else {
        let rest = cascade_ops(dir, recs.drop_last(), id);
        let last = recs.last();
        if last.task.depends_on.contains(id) {
            rest.push(FileOpM::Write {
                path: path_chars(dir, last.task.id),
                content: encode_record(
                    TaskM {
                        depends_on: last.task.depends_on.filter(crate::dependency::not_id(id)),
                        ..last.task
                    },
                    last.note,
                ),
            })
        } else {
            rest
        }
    }
}

/// One loader step: keep a decodable record when its id is below the one
/// unusable value at the top of the id space and strictly beyond every id
/// already kept; skip everything else.
pub open spec fn load_step(acc: Seq<RecordM>, s: Seq<char>) -> Seq<RecordM> {
    match decode_spec(s) {
        Some(p) => if p.0.id < u32::MAX && (acc.len() == 0 || acc.last().task.id < p.0.id) {
            acc.push(RecordM { task: p.0, note: p.1 })
        } else {
            acc
        },
        None => acc,
    }
}

/// The records a load keeps, file by file in the given order: exactly the
/// decodable inputs with ascending usable ids. A file that fails to decode,
/// repeats an id, or arrives out of order contributes nothing — the listing
/// degrades per record, it never fails as a whole.
pub open spec fn loaded_records(files: Seq<Seq<char>>) -> Seq<RecordM>
    decreases files.len(),
{
    if files.len() == 0 {
        Seq::empty()
    } else {
        load_step(loaded_records(files.drop_last()), files.last())
    }
}

/// The counter a load starts from: the stored value when there is one,
/// never below one.
pub open spec fn load_base(meta_text: Option<Seq<char>>) -> int {
    match meta_text {
        Some(t) => if spec_parse_meta(t) matches Some(v) && v >= 1 {
            spec_parse_meta(t)->Some_0 as int
        } else {
            1
        },
        None => 1,
    }
}

/// The store: the snapshot of all records plus the id allocator.
#[derive(Debug)]
pub struct Repository {
    data_dir: String,
    records: Vec<TaskWithNote>,
    meta: Meta,
}

impl View for Repository {
    type V = RepoM;

    closed spec fn view(&self) -> RepoM {
        RepoM {
            data_dir: self.data_dir@,
            records: self.records@.map_values(|r: TaskWithNote| r@),
            next_id: self.meta.next_id,
        }
    }
}

/// The store's invariant: records strictly ascending by id (hence unique),
/// every record well formed, and every id below the allocator counter.
pub open spec fn repo_wf(m: RepoM) -> bool {
    &&& (forall|i: int, j: int| 0 <= i < j < m.records.len()
        ==> #[trigger] m.records[i].task.id < #[trigger] m.records[j].task.id)
    &&& (forall|i: int| 0 <= i < m.records.len() ==> wf_task(#[trigger] m.records[i].task))
    &&& (forall|i: int| 0 <= i < m.records.len()
        ==> (#[trigger] m.records[i].task.id) < m.next_id)
}

/// The task snapshot a store model presents to the graph and scoring
/// services.
pub open spec fn repo_tasks(m: RepoM) -> Seq<TaskM> {
    m.records.map_values(|r: RecordM| r.task)
}

/// In a well-formed store, an id determines its record's position.
pub proof fn lemma_id_index_unique(m: RepoM, i: int, j: int)
    requires
        repo_wf(m),
        0 <= i < m.records.len(),
        0 <= j < m.records.len(),
        m.records[i].task.id == m.records[j].task.id,
    ensures
        i == j,
{
    if i < j {
        assert(m.records[i].task.id < m.records[j].task.id);
    }
    if j < i {
        assert(m.records[j].task.id < m.records[i].task.id);
    }
}

/// Deleting a task unblocks its dependents: any record of the resulting
/// store whose dependencies all fail to resolve to an unfinished task —
/// as when the deleted id was its only unfinished dependency — is not
/// blocked in the resulting snapshot.
pub proof fn lemma_delete_unblocks(m1: RepoM, m2: RepoM, i: int, id: u32, j: int)
    requires
        0 <= i < m1.records.len(),
        m1.records[i].task.id == id,
        m2.records == m1.records.remove(i).map_values(|rec: RecordM| RecordM {
            task: TaskM {
                depends_on: rec.task.depends_on.filter(not_id(id)),
                ..rec.task
            },
            ..rec
        }),
        0 <= j < m2.records.len(),
        // Every remaining dependency of record `j` was already settled:
        // finished, or naming no stored task.
        forall|d: u32| #[trigger] m2.records[j].task.depends_on.contains(d)
            ==> !active_dep(repo_tasks(m1), d),
    ensures
        !spec_blocked(m2.records[j].task, repo_tasks(m2)),
{
    let g1 = repo_tasks(m1);
    let g2 = repo_tasks(m2);
    let removed = m1.records.remove(i);
    // Any task still unfinished in the new snapshot was unfinished in the
    // old one: ids and statuses carry over pointwise.
    assert forall|d: u32| #[trigger] active_dep(g2, d) implies active_dep(g1, d) by {
        let l = choose|l: int| 0 <= l < g2.len() && g2[l].id == d
            && g2[l].status != Status::Done;
        assert(g2[l].id == removed[l].task.id && g2[l].status == removed[l].task.status);
        if l < i {
            assert(removed[l] == m1.records[l]);
            assert(g1[l].id == d && g1[l].status != Status::Done);
        } else {
            assert(removed[l] == m1.records[l + 1]);
            assert(g1[l + 1].id == d && g1[l + 1].status != Status::Done);
        }
    };
    if spec_blocked(m2.records[j].task, g2) {
        let k = choose|k: int| 0 <= k < m2.records[j].task.depends_on.len()
            && active_dep(g2, #[trigger] m2.records[j].task.depends_on[k]);
        assert(m2.records[j].task.depends_on.contains(m2.records[j].task.depends_on[k]));
    }
}

/// Strictly ascending ids are unique ids.
pub proof fn lemma_repo_unique(m: RepoM)
    requires
        repo_wf(m),
    ensures
        unique_ids(m.records.map_values(|r: RecordM| r.task)),
{
    let g = m.records.map_values(|r: RecordM| r.task);
    assert forall|i: int, j: int| 0 <= i < g.len() && 0 <= j < g.len() && i != j
        implies g[i].id != g[j].id by {
        if i < j {
            assert(m.records[i].task.id < m.records[j].task.id);
        } else {
            assert(m.records[j].task.id < m.records[i].task.id);
        }
    };
}

impl Repository {
    /// A fresh, empty store over a data directory.
    pub fn new(data_dir: String) -> (r: Repository)
        ensures
            r@.data_dir == data_dir@,
            r@.records == Seq::<RecordM>::empty(),
            r@.next_id == 1,
            repo_wf(r@),
    {
        let r = Repository { data_dir, records: Vec::new(), meta: Meta::default() };
        proof {
            assert(r@.records =~= Seq::<RecordM>::empty());
        }
        r
    }

    /// Load a store from a directory snapshot: the allocator text (when
    /// the allocator file exists) and the contents of the task files,
    /// ordered by ascending file id. The records kept are exactly
    /// `loaded_records` of the inputs: a file that fails to decode is
    /// skipped rather than failing the whole load. Allocator text that does
    /// not parse is a `ParseError`; an absent allocator file starts the
    /// counter at one. The counter resumes past every loaded id, so ids are
    /// never reused.
    pub fn load(data_dir: String, meta_text: Option<&String>, files: &Vec<String>) -> (r:
        Result<Repository, TaskCtlError>)
        ensures
            match r {
                Ok(repo) => {
                    &&& repo@.data_dir == data_dir@
                    &&& repo_wf(repo@)
                    &&& repo@.records == loaded_records(files@.map_values(|t: String| t@))
                    &&& (meta_text matches Some(t) ==> spec_parse_meta(t@) is Some)
                    &&& repo@.next_id >= load_base(match meta_text {
                        Some(t) => Some(t@),
                        None => None,
                    })
                    &&& (repo@.next_id == load_base(match meta_text {
                        Some(t) => Some(t@),
                        None => None,
                    }) || exists|i: int| 0 <= i < repo@.records.len()
                        && (#[trigger] repo@.records[i]).task.id + 1 == repo@.next_id)
                },
                Err(e) => meta_text matches Some(t) && spec_parse_meta(t@) is None
                    && e is ParseError,
            },
    {
        let ghost files_m = files@.map_values(|t: String| t@);
        let ghost meta_m: Option<Seq<char>> = match meta_text {
            Some(t) => Some(t@),
            None => None,
        };

        // The allocator text decides first: corrupt text fails the load.
        let mut next_id: u32 = match meta_text {
            Some(t) => match Meta::from_text(t.as_str()) {
                Some(m) => m.next_id,
                None => {
                    return Err(TaskCtlError::ParseError {
                        path: String::from_str(".meta.json"),
                        detail: String::from_str("Malformed allocator state"),
                    });
                },
            },
            None => 1,
        };
        if next_id == 0 {
            next_id = 1;
        }
        let ghost base = load_base(meta_m);
        proof {
            assert(next_id == base);
        }

        let mut records: Vec<TaskWithNote> = Vec::new();
        let mut f: usize = 0;
        proof {
            assert(files_m.take(0) =~= Seq::<Seq<char>>::empty());
            assert(records@.map_values(|t: TaskWithNote| t@)
                =~= loaded_records(files_m.take(0)));
        }
        while f < files.len()
            invariant
                0 <= f <= files@.len(),
                files_m == files@.map_values(|t: String| t@),
                records@.map_values(|t: TaskWithNote| t@) == loaded_records(
                    files_m.take(f as int)),
                forall|x: int, y: int| 0 <= x < y < records@.len()
                    ==> (#[trigger] records@[x]@.task.id) < (#[trigger] records@[y]@.task.id),
                forall|i: int| 0 <= i < records@.len()
                    ==> wf_task((#[trigger] records@[i]@).task),
                forall|i: int| 0 <= i < records@.len()
                    ==> (#[trigger] records@[i]@).task.id < u32::MAX,
            decreases files@.len() - f,
        {
            let ghost pre = files_m.take(f as int);
            let ghost cur = files_m.take(f + 1);
            proof {
                assert(cur.drop_last() =~= pre);
                assert(cur.last() == files_m[f as int]);
                assert(files_m[f as int] == files@[f as int]@);
            }
            match parse(files[f].as_str(), "record") {
                Ok((task, note)) => {
                    let keep = if task.id >= u32::MAX {
                        false
                    } else if records.len() == 0 {
                        true
                    } else {
                        records[records.len() - 1].task.id < task.id
                    };
                    proof {
                        let acc = loaded_records(pre);
                        if records@.len() > 0 {
                            assert(acc.last()
                                == records@[records@.len() - 1]@);
                        }
                    }
                    if keep {
                        let ghost before = records@;
                        records.push(TaskWithNote { task, note });
                        proof {
                            assert(forall|k: int| 0 <= k < before.len()
                                ==> records@[k] == before[k]);
                            assert(records@.map_values(|t: TaskWithNote| t@)
                                =~= loaded_records(pre).push(
                                    records@[records@.len() - 1]@));
                            assert(records@.map_values(|t: TaskWithNote| t@)
                                =~= loaded_records(cur));
                            assert forall|x: int, y: int| 0 <= x < y < records@.len()
                                implies (#[trigger] records@[x]@.task.id)
                                    < (#[trigger] records@[y]@.task.id) by {
                                if y == records@.len() - 1 && before.len() > 0 {
                                    if x < before.len() - 1 {
                                        assert(before[x]@.task.id
                                            < before[before.len() - 1]@.task.id);
                                    }
                                }
                            };
                        }
                    } else {
                        proof {
                            assert(loaded_records(cur) == loaded_records(pre));
                        }
                    }
                },
                Err(_) => {
                    proof {
                        assert(loaded_records(cur) == loaded_records(pre));
                    }
                },
            }
            f += 1;
        }
        proof {
            assert(files_m.take(files_m.len() as int) =~= files_m);
        }

        // Resume the allocator past every loaded id.
        let mut k: usize = 0;
        while k < records.len()
            invariant
                0 <= k <= records@.len(),
                1 <= base <= next_id,
                files_m == files@.map_values(|t: String| t@),
                records@.map_values(|t: TaskWithNote| t@) == loaded_records(files_m),
                meta_m == (match meta_text {
                    Some(t) => Some(t@),
                    None => None,
                }),
                base == load_base(meta_m),
                next_id == base || exists|i: int| 0 <= i < records@.len()
                    && (#[trigger] records@[i]@).task.id + 1 == next_id,
                forall|x: int, y: int| 0 <= x < y < records@.len()
                    ==> (#[trigger] records@[x]@.task.id) < (#[trigger] records@[y]@.task.id),
                forall|i: int| 0 <= i < records@.len()
                    ==> wf_task((#[trigger] records@[i]@).task),
                forall|i: int| 0 <= i < records@.len()
                    ==> (#[trigger] records@[i]@).task.id < u32::MAX,
                forall|i: int| 0 <= i < k ==> (#[trigger] records@[i]@).task.id < next_id,
            decreases records@.len() - k,
        {
            proof {
                assert(records@[k as int]@.task.id < u32::MAX);
            }
            if records[k].task.id >= next_id {
                next_id = records[k].task.id + 1;
                proof {
                    assert(records@[k as int]@.task.id + 1 == next_id);
                }
            }
            k += 1;
        }
        proof {
            if next_id != base {
                let m = records@.map_values(|t: TaskWithNote| t@);
                let i = choose|i: int| 0 <= i < records@.len()
                    && (#[trigger] records@[i]@).task.id + 1 == next_id;
                assert((#[trigger] m[i]).task.id + 1 == next_id);
            }
        }
        let r = Repository { data_dir, records, meta: Meta { next_id } };
        proof {
            assert(r@.records =~= r.records@.map_values(|t: TaskWithNote| t@));
        }
        Ok(r)
    }

    /// The path of the file holding the task with this id.
    pub fn task_path(&self, id: u32) -> (r: String)
        ensures
            r@ == path_chars(self@.data_dir, id),
    {
        let mut out = clone_string(&self.data_dir);
        out.append("/");
        push_dec(&mut out, id as u64);
        out.append(".md");
        proof {
            assert(out@ =~= path_chars(self@.data_dir, id));
        }
        out
    }

    /// The path of the allocator file.
    pub fn meta_path(&self) -> (r: String)
        ensures
            r@ == meta_path_chars(self@.data_dir),
    {
        let mut out = clone_string(&self.data_dir);
        out.append("/.meta.json");
        proof {
            assert(out@ =~= meta_path_chars(self@.data_dir));
        }
        out
    }

    /// The path of the lock marker file.
    pub fn lock_path(&self) -> (r: String)
        ensures
            r@ == self@.data_dir + "/.lock"@,
    {
        let mut out = clone_string(&self.data_dir);
        out.append("/.lock");
        out
    }

    /// The index of the record with this id, if any.
    fn find(&self, id: u32) -> (r: Option<usize>)
        requires
            repo_wf(self@),
        ensures
            match r {
                Some(i) => i < self@.records.len() && self@.records[i as int].task.id == id,
                None => forall|i: int| 0 <= i < self@.records.len()
                    ==> (#[trigger] self@.records[i].task.id) != id,
            },
    {
        let mut i: usize = 0;
        while i < self.records.len()
            invariant
                0 <= i <= self@.records.len(),
                self@.records.len() == self.records@.len(),
                forall|k: int| 0 <= k < i ==> (#[trigger] self@.records[k].task.id) != id,
            decreases self@.records.len() - i,
        {
            if self.records[i].task.id == id {
                proof {
                    assert(self@.records[i as int] == self.records@[i as int]@);
                }
                return Some(i);
            }
            proof {
                assert(self@.records[i as int] == self.records@[i as int]@);
            }
            i += 1;
        }
        None
    }

    /// Read a single record by id, or fail with `TaskNotFound`.
    pub fn read(&self, id: u32) -> (r: Result<TaskWithNote, TaskCtlError>)
        requires
            repo_wf(self@),
        ensures
            match r {
                Ok(rec) => exists|i: int| 0 <= i < self@.records.len()
                    && rec@ == self@.records[i] && self@.records[i].task.id == id,
                Err(e) => e == TaskCtlError::TaskNotFound(id)
                    && forall|i: int| 0 <= i < self@.records.len()
                        ==> (#[trigger] self@.records[i].task.id) != id,
            },
    {
        match self.find(id) {
            Some(i) => {
                let rec = clone_record(&self.records[i]);
                proof {
                    assert(rec@ == self@.records[i as int]);
                }
                Ok(rec)
            },
            None => Err(TaskCtlError::TaskNotFound(id)),
        }
    }

    /// Read every record, sorted ascending by id.
    pub fn read_all(&self) -> (r: Vec<TaskWithNote>)
        ensures
            r@.map_values(|t: TaskWithNote| t@) == self@.records,
    {
        let mut out: Vec<TaskWithNote> = Vec::new();
        let mut i: usize = 0;
        while i < self.records.len()
            invariant
                0 <= i <= self.records@.len(),
                out@.len() == i,
                forall|k: int| 0 <= k < i ==> #[trigger] out@[k]@ == self.records@[k]@,
            decreases self.records@.len() - i,
        {
            out.push(clone_record(&self.records[i]));
            i += 1;
        }
        proof {
            assert(out@.map_values(|t: TaskWithNote| t@)
                =~= self.records@.map_values(|t: TaskWithNote| t@));
        }
        out
    }

    /// The task attributes of every record, sorted ascending by id: the
    /// snapshot the graph and scoring services consume.
    pub fn tasks(&self) -> (r: Vec<Task>)
        ensures
            models(r@) == self@.records.map_values(|t: RecordM| t.task),
    {
        let mut out: Vec<Task> = Vec::new();
        let mut i: usize = 0;
        while i < self.records.len()
            invariant
                0 <= i <= self.records@.len(),
                out@.len() == i,
                forall|k: int| 0 <= k < i ==> #[trigger] out@[k]@ == self.records@[k]@.task,
            decreases self.records@.len() - i,
        {
            out.push(crate::task::clone_task(&self.records[i].task));
            i += 1;
        }
        proof {
            assert(models(out@) =~= self@.records.map_values(|t: RecordM| t.task));
        }
        out
    }

    /// Create a task: allocate the next id, apply the given attributes to a
    /// fresh Pending task stamped `now`, and plan the task-file write plus
    /// the allocator write. Fails without allocating when an attribute is
    /// not storable or the id space is exhausted. The line-oriented record
    /// format makes storable mean single-line: a title, tag or estimate
    /// holding a line break is rejected as an invalid argument.
    pub fn create(&mut self, title: String, now: Timestamp, init: TaskInit) -> (r: Result<
        (TaskWithNote, Vec<FileOp>),
        TaskCtlError,
    >)
        requires
            repo_wf(old(self)@),
            crate::dates::wf_timestamp(now),
        ensures
            repo_wf(final(self)@),
            ({
                let ok = no_nl(title@) && wf_init(init.due,
                    init.tags@.map_values(|t: String| t@),
                    match init.estimate { Some(ref e) => Some(e@), None => None })
                    && old(self)@.next_id < u32::MAX;
                match r {
                    Ok((rec, ops)) => ok
                        && rec@.task == (TaskM {
                            id: old(self)@.next_id,
                            title: title@,
                            status: Status::Pending,
                            created_at: now,
                            updated_at: now,
                            due: init.due,
                            tags: init.tags@.map_values(|t: String| t@),
                            estimate: match init.estimate {
                                Some(ref e) => Some(e@),
                                None => None,
                            },
                            depends_on: init.depends_on@,
                            pinned: false,
                            pinned_at: None,
                            schema_version: SCHEMA_VERSION,
                        })
                        && rec@.note == Seq::<char>::empty()
                        && final(self)@.records == old(self)@.records.push(rec@)
                        && final(self)@.next_id == old(self)@.next_id + 1
                        && final(self)@.data_dir == old(self)@.data_dir
                        && ops@.len() == 2
                        && ops@[0]@ == (FileOpM::Write {
                            path: path_chars(old(self)@.data_dir, old(self)@.next_id),
                            content: encode_record(rec@.task, Seq::empty()),
                        })
                        && ops@[1]@ == (FileOpM::Write {
                            path: meta_path_chars(old(self)@.data_dir),
                            content: meta_chars(final(self)@.next_id),
                        }),
                    Err(e) => !ok && e is InvalidArgument && final(self)@ == old(self)@,
                }
            }),
    {
        let ghost tags_m = init.tags@.map_values(|t: String| t@);
        if self.meta.next_id == u32::MAX {
            return Err(TaskCtlError::InvalidArgument(
                String::from_str("The id space is exhausted"),
            ));
        }
        if !check_no_nl(title.as_str()) {
            return Err(TaskCtlError::InvalidArgument(
                String::from_str("A title must be a single line"),
            ));
        }
        let mut tags_ok = true;
        let mut i: usize = 0;
        while i < init.tags.len()
            invariant
                0 <= i <= init.tags@.len(),
                tags_m == init.tags@.map_values(|t: String| t@),
                tags_ok ==> forall|k: int| 0 <= k < i ==> no_nl(#[trigger] tags_m[k]),
                !tags_ok ==> exists|k: int| 0 <= k < i && !no_nl(#[trigger] tags_m[k]),
            decreases init.tags@.len() - i,
        {
            if !check_no_nl(init.tags[i].as_str()) {
                proof {
                    assert(!no_nl(tags_m[i as int]));
                }
                tags_ok = false;
            }
            i += 1;
        }
        if !tags_ok {
            return Err(TaskCtlError::InvalidArgument(
                String::from_str("A tag must be a single line"),
            ));
        }
        match &init.estimate {
            Some(e) => {
                if !check_no_nl(e.as_str()) {
                    return Err(TaskCtlError::InvalidArgument(
                        String::from_str("An estimate must be a single line"),
                    ));
                }
            },
            None => {},
        }
        let id = self.meta.allocate_id();
        let mut task = crate::task::Task::new(id, title, now);
        task.due = init.due;
        task.tags = init.tags;
        task.estimate = init.estimate;
        task.depends_on = init.depends_on;
        let content = match serialize(&task, "") {
            Ok(c) => c,
            Err(_) => {
                proof {
                    assert(false);
                }
                return Err(TaskCtlError::InvalidArgument(String::new()));
            },
        };
        proof {
            reveal_strlit("");
        }
        let path = self.task_path(id);
        let meta_op = FileOp::Write { path: self.meta_path(), content: self.meta.to_text() };
        let rec = TaskWithNote { task, note: String::new() };
        let rec_out = clone_record(&rec);
        let ghost old_records = self@.records;
        self.records.push(rec);
        let mut ops: Vec<FileOp> = Vec::new();
        ops.push(FileOp::Write { path, content });
        ops.push(meta_op);
        proof {
            assert(self@.records =~= old(self)@.records.push(rec_out@));
            assert(repo_wf(self@)) by {
                assert(forall|i: int| 0 <= i < old(self)@.records.len()
                    ==> self@.records[i] == old(self)@.records[i]);
            };
        }
        Ok((rec_out, ops))
    }

    /// Overwrite the record whose id matches, or fail with `TaskNotFound`;
    /// plans the one task-file write. The record must be storable.
    pub fn update(&mut self, tw: &TaskWithNote) -> (r: Result<FileOp, TaskCtlError>)
        requires
            repo_wf(old(self)@),
            wf_task(tw@.task),
        ensures
            repo_wf(final(self)@),
            final(self)@.data_dir == old(self)@.data_dir,
            final(self)@.next_id == old(self)@.next_id,
            match r {
                Ok(op) => exists|i: int| 0 <= i < old(self)@.records.len()
                    && old(self)@.records[i].task.id == tw@.task.id
                    && final(self)@.records == old(self)@.records.update(i, tw@)
                    && op@ == (FileOpM::Write {
                        path: path_chars(old(self)@.data_dir, tw@.task.id),
                        content: encode_record(tw@.task, tw@.note),
                    }),
                Err(e) => e == TaskCtlError::TaskNotFound(tw@.task.id)
                    && final(self)@ == old(self)@
                    && forall|i: int| 0 <= i < old(self)@.records.len()
                        ==> (#[trigger] old(self)@.records[i].task.id) != tw@.task.id,
            },
    {
        let i = match self.find(tw.task.id) {
            Some(i) => i,
            None => {
                return Err(TaskCtlError::TaskNotFound(tw.task.id));
            },
        };
        let content = match serialize(&tw.task, tw.note.as_str()) {
            Ok(c) => c,
            Err(_) => {
                proof {
                    assert(false);
                }
                return Err(TaskCtlError::TaskNotFound(tw.task.id));
            },
        };
        let path = self.task_path(tw.task.id);
        let rec = clone_record(tw);
        self.records.set(i, rec);
        proof {
            assert(self@.records =~= old(self)@.records.update(i as int, tw@));
            assert(repo_wf(self@)) by {
                assert forall|x: int, y: int| 0 <= x < y < self@.records.len()
                    implies #[trigger] self@.records[x].task.id
                        < #[trigger] self@.records[y].task.id by {
                    assert(old(self)@.records[x].task.id < old(self)@.records[y].task.id);
                };
            };
        }
        Ok(FileOp::Write { path, content })
    }

    /// Delete the record whose id matches, or fail with `TaskNotFound`.
    /// Every other record that listed the id has it removed from its
    /// `depends_on`; the plan is the file removal followed by one rewrite
    /// per cleaned record, in id order.
    pub fn delete(&mut self, id: u32) -> (r: Result<Vec<FileOp>, TaskCtlError>)
        requires
            repo_wf(old(self)@),
        ensures
            repo_wf(final(self)@),
            final(self)@.data_dir == old(self)@.data_dir,
            final(self)@.next_id == old(self)@.next_id,
            match r {
                Ok(ops) => exists|i: int| 0 <= i < old(self)@.records.len()
                    && old(self)@.records[i].task.id == id
                    && final(self)@.records == old(self)@.records.remove(i).map_values(
                        |rec: RecordM| RecordM {
                            task: TaskM {
                                depends_on: rec.task.depends_on.filter(
                                    crate::dependency::not_id(id)),
                                ..rec.task
                            },
                            ..rec
                        })
                    && ops@.map_values(|o: FileOp| o@) == seq![FileOpM::Remove {
                        path: path_chars(old(self)@.data_dir, id),
                    }] + cascade_ops(old(self)@.data_dir, old(self)@.records.remove(i), id),
                Err(e) => e == TaskCtlError::TaskNotFound(id)
                    && final(self)@ == old(self)@
                    && forall|i: int| 0 <= i < old(self)@.records.len()
                        ==> (#[trigger] old(self)@.records[i].task.id) != id,
            },
    {
        let i = match self.find(id) {
            Some(i) => i,
            None => {
                return Err(TaskCtlError::TaskNotFound(id));
            },
        };
        let ghost old_m = self@;
        self.records.remove(i);
        let ghost removed = old_m.records.remove(i as int);
        proof {
            assert(self@.records =~= removed);
        }
        let mut ops: Vec<FileOp> = Vec::new();
        ops.push(FileOp::Remove { path: self.task_path(id) });
        proof {
            assert(removed.take(0) =~= Seq::<RecordM>::empty());
            assert(ops@.map_values(|o: FileOp| o@) =~= seq![FileOpM::Remove {
                path: path_chars(old_m.data_dir, id),
            }] + cascade_ops(old_m.data_dir, removed.take(0), id));
        }
        let ghost target = removed.map_values(|rec: RecordM| RecordM {
            task: TaskM {
                depends_on: rec.task.depends_on.filter(crate::dependency::not_id(id)),
                ..rec.task
            },
            ..rec
        });
        let mut out: Vec<TaskWithNote> = Vec::new();
        let mut k: usize = 0;
        while k < self.records.len()
            invariant
                0 <= k <= self.records@.len(),
                self.records@.len() == removed.len(),
                forall|j: int| 0 <= j < removed.len()
                    ==> #[trigger] self.records@[j]@ == removed[j],
                forall|j: int| 0 <= j < removed.len() ==> wf_task(#[trigger] removed[j].task),
                target == removed.map_values(|rec: RecordM| RecordM {
                    task: TaskM {
                        depends_on: rec.task.depends_on.filter(
                            crate::dependency::not_id(id)),
                        ..rec.task
                    },
                    ..rec
                }),
                out@.len() == k,
                forall|j: int| 0 <= j < k ==> #[trigger] out@[j]@ == target[j],
                self@.data_dir == old_m.data_dir,
                ops@.map_values(|o: FileOp| o@) == seq![FileOpM::Remove {
                    path: path_chars(old_m.data_dir, id),
                }] + cascade_ops(old_m.data_dir, removed.take(k as int), id),
            decreases self.records@.len() - k,
        {
            let mut rec = clone_record(&self.records[k]);
            let ghost ops0 = ops@;
            proof {
                assert(removed.take(k + 1).drop_last() =~= removed.take(k as int));
                assert(removed.take(k + 1).last() == removed[k as int]);
            }
            let listed = crate::dependency::vec_contains(&rec.task.depends_on, id);
            proof {
                assert(rec.task@ == removed[k as int].task);
                assert(listed == removed[k as int].task.depends_on.contains(id));
            }
            if listed {
                crate::dependency::remove_dependency(&mut rec.task, id);
                proof {
                    assert(rec.task@ == (TaskM {
                        depends_on: removed[k as int].task.depends_on.filter(
                            crate::dependency::not_id(id)),
                        ..removed[k as int].task
                    }));
                }
                let content = match serialize(&rec.task, rec.note.as_str()) {
                    Ok(c) => c,
                    Err(_) => {
                        proof {
                            assert(false);
                        }
                        return Err(TaskCtlError::TaskNotFound(id));
                    },
                };
                ops.push(FileOp::Write { path: self.task_path(rec.task.id), content });
                proof {
                    let wop = FileOpM::Write {
                        path: path_chars(old_m.data_dir, removed[k as int].task.id),
                        content: encode_record(
                            TaskM {
                                depends_on: removed[k as int].task.depends_on.filter(
                                    crate::dependency::not_id(id)),
                                ..removed[k as int].task
                            },
                            removed[k as int].note,
                        ),
                    };
                    assert(ops@.last()@ =~= wop);
                    let pre = removed.take(k as int);
                    let cur = removed.take(k + 1);
                    assert(cur.len() == k + 1);
                    assert(cur.drop_last() == pre);
                    assert(cur.last() == removed[k as int]);
                    assert(cur.last().task.depends_on.contains(id));
                    assert(cascade_ops(old_m.data_dir, cur, id)
                        == cascade_ops(old_m.data_dir, cur.drop_last(), id).push(
                        FileOpM::Write {
                            path: path_chars(old_m.data_dir, cur.last().task.id),
                            content: encode_record(
                                TaskM {
                                    depends_on: cur.last().task.depends_on.filter(
                                        crate::dependency::not_id(id)),
                                    ..cur.last().task
                                },
                                cur.last().note,
                            ),
                        }));
                    assert(cascade_ops(old_m.data_dir, removed.take(k + 1), id)
                        == cascade_ops(old_m.data_dir, removed.take(k as int), id).push(wop));
                    assert(ops@.map_values(|o: FileOp| o@)
                        =~= ops0.map_values(|o: FileOp| o@).push(wop));
                    assert(ops@.map_values(|o: FileOp| o@) =~= seq![FileOpM::Remove {
                        path: path_chars(old_m.data_dir, id),
                    }] + cascade_ops(old_m.data_dir, removed.take(k + 1), id));
                }
            } else {
                proof {
                    let deps = removed[k as int].task.depends_on;
                    assert(deps.filter(crate::dependency::not_id(id)) =~= deps) by {
                        crate::dependency::lemma_filter_no_match(deps, id);
                    };
                    assert(cascade_ops(old_m.data_dir, removed.take(k + 1), id)
                        == cascade_ops(old_m.data_dir, removed.take(k as int), id));
                }
            }
            proof {
                assert(rec@ =~= target[k as int]);
            }
            out.push(rec);
            k += 1;
        }
        self.records = out;
        proof {
            assert(removed.take(removed.len() as int) =~= removed);
            assert(self@.records =~= target);
            assert(repo_wf(self@)) by {
                assert forall|x: int| 0 <= x < target.len()
                    implies wf_task(#[trigger] target[x].task) by {
                    assert(wf_task(removed[x].task));
                    let deps = removed[x].task.depends_on;
                    assert(target[x].task == (TaskM {
                        depends_on: deps.filter(crate::dependency::not_id(id)),
                        ..removed[x].task
                    }));
                };
                assert(forall|x: int| 0 <= x < target.len()
                    ==> (#[trigger] target[x].task.id) == removed[x].task.id);
            };
        }
        Ok(ops)
    }
}

/// Check that a string holds no newline.
fn check_no_nl(s: &str) -> (r: bool)
    ensures
        r == no_nl(s@),
{
    let n = s.unicode_len();
    let mut i: usize = 0;
    while i < n
        invariant
            0 <= i <= n == s@.len(),
            forall|k: int| 0 <= k < i ==> s@[k] != '\n',
        decreases n - i,
    {
        if s.get_char(i) == '\n' {
            return false;
        }
        i += 1;
    }
    true
}

} // verus!
