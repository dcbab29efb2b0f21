//! The task record, its mathematical model, and estimate parsing.
//!
//! Estimates carry a decimal magnitude and a one-letter unit (`m` minutes,
//! `h` hours, `p` points). Magnitudes are held in thousandths so that the
//! scoring engine works in exact integer arithmetic.

use vstd::prelude::*;

use crate::dates::{Timestamp, wf_timestamp, trim, trim_str};
use crate::error::TaskCtlError;
use crate::numtext::{
    all_digits, digits_val, lower_char, lower_seq, pow10, spec_find_char,
    spec_parse_u64, parse_u64_range, find_char, lower_digits_range,
    lemma_digits_val_bound,
};
use crate::status::Status;

verus! {

broadcast use vstd::string::group_string_axioms;

/// Current schema version for task files.
pub const SCHEMA_VERSION: u32 = 1;

/// A task's structured attributes.
#[derive(Debug)]
pub struct Task {
    pub id: u32,
    pub title: String,
    pub status: Status,
    pub created_at: Timestamp,
    pub updated_at: Timestamp,
    pub due: Option<u32>,
    pub tags: Vec<String>,
    pub estimate: Option<String>,
    pub depends_on: Vec<u32>,
    pub pinned: bool,
    pub pinned_at: Option<Timestamp>,
    pub schema_version: u32,
}

/// The mathematical model of a task.
#[verifier::ext_equal]
pub ghost struct TaskM {
    pub id: u32,
    pub title: Seq<char>,
    pub status: Status,
    pub created_at: Timestamp,
    pub updated_at: Timestamp,
    pub due: Option<u32>,
    pub tags: Seq<Seq<char>>,
    pub estimate: Option<Seq<char>>,
    pub depends_on: Seq<u32>,
    pub pinned: bool,
    pub pinned_at: Option<Timestamp>,
    pub schema_version: u32,
}

impl View for Task {
    type V = TaskM;

    open spec fn view(&self) -> TaskM {
        TaskM {
            id: self.id,
            title: self.title@,
            status: self.status,
            created_at: self.created_at,
            updated_at: self.updated_at,
            due: self.due,
            tags: self.tags@.map_values(|t: String| t@),
            estimate: match self.estimate {
                Some(ref e) => Some(e@),
                None => None,
            },
            depends_on: self.depends_on@,
            pinned: self.pinned,
            pinned_at: self.pinned_at,
            schema_version: self.schema_version,
        }
    }
}

/// Whether a character sequence is free of line breaks.
pub open spec fn no_nl(s: Seq<char>) -> bool {
    forall|i: int| 0 <= i < s.len() ==> s[i] != '\n'
}

/// A well-formed task: single-line text fields and real timestamps. This is
/// what the record codec can store and reproduce exactly.
pub open spec fn wf_task(t: TaskM) -> bool {
    &&& no_nl(t.title)
    &&& wf_timestamp(t.created_at)
    &&& wf_timestamp(t.updated_at)
    &&& (forall|i: int| 0 <= i < t.tags.len() ==> no_nl(#[trigger] t.tags[i]))
    &&& (t.estimate matches Some(e) ==> no_nl(e))
    &&& (t.pinned_at matches Some(p) ==> wf_timestamp(p))
}

/// The note body attached one-to-one to a task.
#[derive(Debug)]
pub struct TaskWithNote {
    pub task: Task,
    pub note: String,
}

/// The mathematical model of a task record.
#[verifier::ext_equal]
pub ghost struct RecordM {
    pub task: TaskM,
    pub note: Seq<char>,
}

impl View for TaskWithNote {
    type V = RecordM;

    open spec fn view(&self) -> RecordM {
        RecordM { task: self.task@, note: self.note@ }
    }
}

impl Task {
    /// A fresh task: Pending, stamped with `now`, and otherwise empty.
    pub fn new(id: u32, title: String, now: Timestamp) -> (t: Task)
        ensures
            t@ == (TaskM {
                id,
                title: title@,
                status: Status::Pending,
                created_at: now,
                updated_at: now,
                due: None,
                tags: Seq::empty(),
                estimate: None,
                depends_on: Seq::empty(),
                pinned: false,
                pinned_at: None,
                schema_version: SCHEMA_VERSION,
            }),
    {
        let t = Task {
            id,
            title,
            status: Status::Pending,
            created_at: now,
            updated_at: now,
            due: None,
            tags: Vec::new(),
            estimate: None,
            depends_on: Vec::new(),
            pinned: false,
            pinned_at: None,
            schema_version: SCHEMA_VERSION,
        };
        proof {
            assert(t@.tags =~= Seq::<Seq<char>>::empty());
            assert(t@ =~= (TaskM {
                id,
                title: t.title@,
                status: Status::Pending,
                created_at: now,
                updated_at: now,
                due: None,
                tags: Seq::empty(),
                estimate: None,
                depends_on: Seq::empty(),
                pinned: false,
                pinned_at: None,
                schema_version: SCHEMA_VERSION,
            }));
        }
        t
    }
}

/// Copy a string, keeping its characters.
pub fn clone_string(s: &String) -> (r: String)
    ensures
        r@ == s@,
{
    s.clone()
}

/// Copy a tag list, keeping every tag's characters.
pub fn clone_tags(v: &Vec<String>) -> (r: Vec<String>)
    ensures
        r@.map_values(|t: String| t@) == v@.map_values(|t: String| t@),
{
    let mut out: Vec<String> = Vec::new();
    let mut i: usize = 0;
    while i < v.len()
        invariant
            0 <= i <= v@.len(),
            out@.len() == i,
            forall|k: int| 0 <= k < i ==> #[trigger] out@[k]@ == v@[k]@,
        decreases v@.len() - i,
    {
        out.push(clone_string(&v[i]));
        i += 1;
    }
    proof {
        assert(out@.map_values(|t: String| t@) =~= v@.map_values(|t: String| t@));
    }
    out
}

/// Copy an id list.
pub fn clone_ids(v: &Vec<u32>) -> (r: Vec<u32>)
    ensures
        r@ == v@,
{
    let mut out: Vec<u32> = Vec::new();
    let mut i: usize = 0;
    while i < v.len()
        invariant
            0 <= i <= v@.len(),
            out@ == v@.subrange(0, i as int),
        decreases v@.len() - i,
    {
        out.push(v[i]);
        proof {
            assert(out@ =~= v@.subrange(0, i + 1));
        }
        i += 1;
    }
    proof {
        assert(v@.subrange(0, v@.len() as int) =~= v@);
    }
    out
}

/// Copy an optional string.
pub fn clone_opt_string(s: &Option<String>) -> (r: Option<String>)
    ensures
        match (s, r) {
            (Some(a), Some(b)) => a@ == b@,
            (None, None) => true,
            _ => false,
        },
{
    match s {
        Some(x) => Some(clone_string(x)),
        None => None,
    }
}

/// Copy a task, keeping its whole model.
pub fn clone_task(t: &Task) -> (r: Task)
    ensures
        r@ == t@,
{
    let r = Task {
        id: t.id,
        title: clone_string(&t.title),
        status: t.status,
        created_at: t.created_at,
        updated_at: t.updated_at,
        due: t.due,
        tags: clone_tags(&t.tags),
        estimate: clone_opt_string(&t.estimate),
        depends_on: clone_ids(&t.depends_on),
        pinned: t.pinned,
        pinned_at: t.pinned_at,
        schema_version: t.schema_version,
    };
    proof {
        assert(r@ =~= t@);
    }
    r
}

/// Copy a task record, keeping its whole model.
pub fn clone_record(t: &TaskWithNote) -> (r: TaskWithNote)
    ensures
        r@ == t@,
{
    let r = TaskWithNote { task: clone_task(&t.task), note: clone_string(&t.note) };
    proof {
        assert(r@ =~= t@);
    }
    r
}

/// A parsed estimate. `Hours` and `Points` hold thousandths of their unit;
/// `Minutes` holds whole minutes.
#[derive(Debug, Clone, Copy, PartialEq, Eq, Structural)]
pub enum Estimate {
    Minutes(u32),
    Hours(u32),
    Points(u32),
}

/// The magnitude of a decimal literal, in thousandths: an optional integer
/// part, an optional dot, and an optional fraction, of which the first three
/// digits count.
pub open spec fn spec_magnitude_milli(b: Seq<char>) -> Option<int> {
    match spec_find_char(b, 0, '.') {
        None => if b.len() >= 1 && all_digits(b) {
            Some((digits_val(b) * 1000) as int)
        } else {
            None
        },
        Some(i) => {
            let ip = b.subrange(0, i);
            let fp = b.subrange(i + 1, b.len() as int);
            if ip.len() + fp.len() >= 1 && all_digits(ip) && all_digits(fp) {
                Some((digits_val(ip) * 1000 + frac_milli(fp)) as int)
            } else {
                None
            }
        },
    }
}

/// The value of a fraction's first three digits, in thousandths.
pub open spec fn frac_milli(f: Seq<char>) -> nat {
    if f.len() >= 3 {
        digits_val(f.subrange(0, 3))
    } else {
        digits_val(f) * pow10((3 - f.len()) as nat)
    }
}

/// What parsing an estimate means: a magnitude followed by a unit letter,
/// case-insensitive, with a value that fits the representation.
pub open spec fn spec_parse_estimate(s: Seq<char>) -> Option<Estimate> {
    let lt = lower_seq(trim(s));
    if lt.len() == 0 {
        None
    } else {
        let unit = lt.last();
        let body = lt.subrange(0, lt.len() - 1);
        match spec_magnitude_milli(body) {
            None => None,
            Some(v) => if v > u32::MAX {
                None
            } else if unit == 'm' {
                Some(Estimate::Minutes((v / 1000) as u32))
            } else if unit == 'h' {
                Some(Estimate::Hours(v as u32))
            } else if unit == 'p' {
                Some(Estimate::Points(v as u32))
            } else {
                None
            },
        }
    }
}

/// Hours denoted by an estimate, in thousandths, with points converted at
/// `point_to_hours` (itself in thousandths of an hour per point).
pub open spec fn spec_to_hours(e: Estimate, point_to_hours: u32) -> int {
    match e {
        Estimate::Minutes(m) => (m * 1000) / 60,
        Estimate::Hours(h) => h as int,
        Estimate::Points(p) => (p * point_to_hours) / 1000,
    }
}

impl Estimate {
    /// Parse an estimate such as `30m`, `2h`, `1.5h` or `3p`.
    pub fn parse(s: &str) -> (r: Result<Estimate, TaskCtlError>)
        ensures
            match spec_parse_estimate(s@) {
                Some(e) => r == Ok::<Estimate, TaskCtlError>(e),
                None => r is Err && r->Err_0 is InvalidArgument,
            },
    {
        let t = trim_str(s);
        let ghost lt = lower_seq(t@);
        let n = t.unicode_len();
        if n == 0 {
            return Err(TaskCtlError::InvalidArgument(String::from_str("Empty estimate")));
        }
        let cl = t.get_char(n - 1);
        let unit = if cl >= 'A' && cl <= 'Z' { ((cl as u8) + 32) as char } else { cl };
        proof {
            assert(lt.last() == lower_char(t@[n - 1]));
            assert(unit == lower_char(t@[n - 1]));
        }
        let ghost body = lt.subrange(0, lt.len() - 1);
        let milli: u64 = match Self::magnitude_milli(t, n - 1) {
            Some(v) => v,
            None => {
                return Err(TaskCtlError::InvalidArgument(String::from_str("Invalid estimate")));
            },
        };
        if milli > u32::MAX as u64 {
            return Err(TaskCtlError::InvalidArgument(String::from_str("Invalid estimate")));
        }
        if unit == 'm' {
            Ok(Estimate::Minutes((milli / 1000) as u32))
        } else if unit == 'h' {
            Ok(Estimate::Hours(milli as u32))
        } else if unit == 'p' {
            Ok(Estimate::Points(milli as u32))
        } else {
            Err(TaskCtlError::InvalidArgument(String::from_str("Unknown estimate unit")))
        }
    }

    /// Parse the decimal magnitude in characters `0..end` of the already
    /// trimmed `t`, in thousandths.
    fn magnitude_milli(t: &str, end: usize) -> (r: Option<u64>)
        requires
            end < t@.len(),
        ensures
            match r {
                Some(m) => spec_magnitude_milli(lower_seq(t@).subrange(0, end as int))
                    == Some(m as int),
                None => spec_magnitude_milli(lower_seq(t@).subrange(0, end as int)) is None
                    || spec_magnitude_milli(lower_seq(t@).subrange(0, end as int))->Some_0
                        > u32::MAX,
            },
    {
        let ghost lt = lower_seq(t@);
        let ghost b = lt.subrange(0, end as int);
        let dot = find_char(t, 0, '.');
        proof {
            // The dot search over the original and lowered views agree on
            // the `0..end` range.
            assert(forall|k: int| 0 <= k < lt.len() ==> #[trigger] lt[k] == lower_char(t@[k]));
            lemma_find_dot_agrees(t@, 0);
        }
        let dot_in = match dot {
            Some(d) => if d < end { Some(d) } else { None },
            None => None,
        };
        proof {
            match dot_in {
                Some(d) => {
                    crate::numtext::lemma_find_char_props(t@, 0, '.');
                    lemma_find_prefix(lt, b, d as int);
                },
                None => {
                    crate::numtext::lemma_find_char_props(t@, 0, '.');
                    lemma_find_none(lt, b, end as int);
                },
            }
        }
        match dot_in {
            Some(d) => {
                // Integer part 0..d, fraction d+1..end.
                if !lower_digits_range(t, 0, d) {
                    proof {
                        assert(b.subrange(0, d as int) =~= lt.subrange(0, d as int));
                    }
                    return None;
                }
                if !lower_digits_range(t, d + 1, end) {
                    proof {
                        assert(b.subrange(d + 1, b.len() as int)
                            =~= lt.subrange(d + 1, end as int));
                    }
                    return None;
                }
                proof {
                    assert(b.subrange(0, d as int) =~= lt.subrange(0, d as int));
                    assert(b.subrange(d + 1, b.len() as int) =~= lt.subrange(d + 1, end as int));
                }
                if d == 0 && d + 1 == end {
                    // A lone dot has no digits at all.
                    return None;
                }
                let ip: u64 = if d == 0 {
                    0
                } else {
                    match parse_u64_range(t, 0, d) {
                        Some(v) => v,
                        None => {
                            proof {
                                lemma_digits_too_big(lt.subrange(0, d as int));
                            }
                            return None;
                        },
                    }
                };
                proof {
                    if d == 0 {
                        assert(lt.subrange(0, 0) =~= Seq::<char>::empty());
                    }
                    assert(ip == digits_val(b.subrange(0, d as int)));
                }
                if ip > u32::MAX as u64 {
                    proof {
                        assert(spec_magnitude_milli(b)->Some_0 >= ip * 1000);
                    }
                    return None;
                }
                let flen = end - (d + 1);
                proof {
                    assert(crate::numtext::pow10(0) == 1);
                    assert(crate::numtext::pow10(1) == 10);
                    assert(crate::numtext::pow10(2) == 100);
                    assert(crate::numtext::pow10(3) == 1000);
                    if flen > 0 {
                        lemma_digits_val_bound(t@.subrange(d + 1, end as int));
                    }
                }
                let fr: u64 = if flen == 0 {
                    proof {
                        assert(b.subrange(d + 1, b.len() as int) =~= Seq::<char>::empty());
                    }
                    0
                } else if flen == 1 {
                    match parse_u64_range(t, d + 1, end) {
                        Some(v) => v * 100,
                        None => {
                            proof { assert(false); }
                            return None;
                        },
                    }
                } else if flen == 2 {
                    match parse_u64_range(t, d + 1, end) {
                        Some(v) => v * 10,
                        None => {
                            proof { assert(false); }
                            return None;
                        },
                    }
                } else {
                    match parse_u64_range(t, d + 1, d + 4) {
                        Some(v) => {
                            proof {
                                let fp = b.subrange(d + 1, b.len() as int);
                                assert(fp.subrange(0, 3) =~= lt.subrange(d + 1, d + 4));
                                assert(lt.subrange(d + 1, d + 4) =~= t@.subrange(d + 1, d + 4));
                                lemma_digits_val_bound(lt.subrange(d + 1, d + 4));
                            }
                            v
                        },
                        None => {
                            proof {
                                let fp = b.subrange(d + 1, b.len() as int);
                                assert(fp.subrange(0, 3) =~= lt.subrange(d + 1, d + 4));
                                assert(lt.subrange(d + 1, d + 4) =~= t@.subrange(d + 1, d + 4));
                                lemma_digits_val_bound(lt.subrange(d + 1, d + 4));
                                assert(false);
                            }
                            return None;
                        },
                    }
                };
                proof {
                    let fp = b.subrange(d + 1, b.len() as int);
                    assert(fp =~= lt.subrange(d + 1, end as int));
                    assert(lt.subrange(d + 1, end as int) == t@.subrange(d + 1, end as int));
                    if flen >= 3 {
                        assert(fp.subrange(0, 3) =~= t@.subrange(d + 1, d + 4));
                        lemma_digits_val_bound(t@.subrange(d + 1, d + 4));
                    }
                    assert(crate::numtext::pow10(0) == 1);
                    assert(crate::numtext::pow10(1) == 10);
                    assert(crate::numtext::pow10(2) == 100);
                    assert(crate::numtext::pow10(3) == 1000);
                    let ex = (3 - fp.len()) as nat;
                    if flen == 0 {
                        assert(digits_val(fp) == 0);
                        assert(digits_val(fp) * pow10(ex) == 0) by (nonlinear_arith)
                            requires
                                digits_val(fp) == 0,
                        ;
                        assert(frac_milli(fp) == 0);
                    } else if flen == 1 {
                        assert(pow10(ex) == 100);
                        assert(digits_val(fp) * pow10(ex) == digits_val(fp) * 100)
                            by (nonlinear_arith)
                            requires
                                pow10(ex) == 100,
                        ;
                        assert(digits_val(fp) == digits_val(t@.subrange(d + 1, end as int)));
                        assert(digits_val(fp) < 10);
                        assert(fr == digits_val(fp) * 100);
                    } else if flen == 2 {
                        assert(pow10(ex) == 10);
                        assert(digits_val(fp) * pow10(ex) == digits_val(fp) * 10)
                            by (nonlinear_arith)
                            requires
                                pow10(ex) == 10,
                        ;
                        assert(digits_val(fp) == digits_val(t@.subrange(d + 1, end as int)));
                        assert(digits_val(fp) < 100);
                        assert(fr == digits_val(fp) * 10);
                    } else {
                        assert(frac_milli(fp) == digits_val(fp.subrange(0, 3)));
                        assert(digits_val(fp.subrange(0, 3))
                            == digits_val(t@.subrange(d + 1, d + 4)));
                        assert(fr == digits_val(t@.subrange(d + 1, d + 4)));
                    }
                    assert(fr == frac_milli(fp));
                    assert(fr < 1000);
                }
                Some(ip * 1000 + fr)
            },
            None => {
                if end == 0 {
                    return None;
                }
                if !lower_digits_range(t, 0, end) {
                    return None;
                }
                proof {
                    assert(b =~= lt.subrange(0, end as int));
                }
                match parse_u64_range(t, 0, end) {
                    Some(v) => {
                        if v > u32::MAX as u64 {
                            proof {
                                assert(spec_magnitude_milli(b)->Some_0 == v * 1000);
                            }
                            return None;
                        }
                        Some(v * 1000)
                    },
                    None => {
                        proof {
                            lemma_digits_too_big(b);
                        }
                        None
                    },
                }
            },
        }
    }

    /// Convert to thousandths of hours at the given point ratio.
    pub fn to_hours(&self, point_to_hours: u32) -> (r: u64)
        ensures
            r == spec_to_hours(*self, point_to_hours),
    {
        match self {
            Estimate::Minutes(m) => ((*m as u64) * 1000) / 60,
            Estimate::Hours(h) => *h as u64,
            Estimate::Points(p) => {
                let pa = *p as u64;
                let ra = point_to_hours as u64;
                proof {
                    assert(pa as int * ra as int <= (u32::MAX as int) * (u32::MAX as int))
                        by (nonlinear_arith)
                        requires
                            0 <= pa <= u32::MAX as int,
                            0 <= ra <= u32::MAX as int,
                    ;
                }
                (pa * ra) / 1000
            },
        }
    }
}

/// A digit run that does not parse as a `u64` is too large for a magnitude.
proof fn lemma_digits_too_big(s: Seq<char>)
    requires
        all_digits(s),
        s.len() >= 1,
        spec_parse_u64(s) is None,
    ensures
        digits_val(s) > u64::MAX,
{
}

/// Lower-casing moves no dot: the first dot of the lowered view is the
/// first dot of the original.
proof fn lemma_find_dot_agrees(t: Seq<char>, from: int)
    requires
        0 <= from <= t.len(),
    ensures
        spec_find_char(lower_seq(t), from, '.') == spec_find_char(t, from, '.'),
    decreases t.len() - from,
{
    if from < t.len() {
        assert(lower_seq(t)[from] == lower_char(t[from]));
        assert((lower_char(t[from]) == '.') == (t[from] == '.'));
        if t[from] != '.' {
            lemma_find_dot_agrees(t, from + 1);
        }
    }
}

/// A range with no dot yields a dot-free prefix search.
proof fn lemma_find_none(lt: Seq<char>, b: Seq<char>, end: int)
    requires
        0 <= end <= lt.len(),
        b == lt.subrange(0, end),
        forall|k: int| 0 <= k < end ==> lt[k] != '.',
    ensures
        spec_find_char(b, 0, '.') is None,
{
    crate::numtext::lemma_find_char_props(b, 0, '.');
    if spec_find_char(b, 0, '.') is Some {
        let j = spec_find_char(b, 0, '.')->Some_0;
        assert(b[j] == lt[j]);
    }
}

/// A first dot inside the prefix is the first dot of the prefix.
proof fn lemma_find_prefix(lt: Seq<char>, b: Seq<char>, d: int)
    requires
        0 <= d < b.len() <= lt.len(),
        b == lt.subrange(0, b.len() as int),
        lt[d] == '.',
        forall|k: int| 0 <= k < d ==> lt[k] != '.',
    ensures
        spec_find_char(b, 0, '.') == Some(d),
{
    crate::numtext::lemma_find_char_props(b, 0, '.');
    assert(b[d] == lt[d]);
    assert(forall|k: int| 0 <= k < d ==> #[trigger] b[k] == lt[k]);
    match spec_find_char(b, 0, '.') {
        Some(j) => {
            if j < d {
                assert(b[j] == lt[j]);
            }
        },
        None => {
            assert(b[d] == '.');
        },
    }
}

} // verus!
