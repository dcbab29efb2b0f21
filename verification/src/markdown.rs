//! The record codec: a task's structured attributes as a delimited front
//! matter block — one field per line between `---` marker lines — followed
//! by the freeform note.
//!
//! Decoding the output of encoding any well-formed record reproduces the
//! structured fields exactly and the note up to one normalizing trailing
//! newline; that law is `lemma_round_trip`.

use vstd::prelude::*;

use crate::dates::{Timestamp, wf_timestamp};
use crate::error::TaskCtlError;
use crate::numtext::{
    dec_digits, spec_parse_u64, spec_find_char, has_prefix_at, lemma_parse_dec_digits,
    lemma_find_char_props, push_dec, parse_u64_range, find_char, prefix_at, str_eq, is_digit,
};
use crate::status::Status;
use crate::task::{no_nl, wf_task, Task, TaskM};

verus! {

broadcast use vstd::string::group_string_axioms;

/// One field line: key, value, newline.
pub open spec fn line(key: Seq<char>, value: Seq<char>) -> Seq<char> {
    key + value + "\n"@
}

/// A timestamp value: day number, one space, second of day.
pub open spec fn ts_chars(t: Timestamp) -> Seq<char> {
    dec_digits(t.day as nat) + " "@ + dec_digits(t.secs as nat)
}

/// A status token.
pub open spec fn status_chars(s: Status) -> Seq<char> {
    match s {
        Status::Pending => "pending"@,
        Status::InProgress => "in_progress"@,
        Status::Done => "done"@,
    }
}

/// A boolean token.
pub open spec fn bool_chars(b: bool) -> Seq<char> {
    if b { "true"@ } else { "false"@ }
}

/// The tag lines, one per tag, in order.
pub open spec fn tag_lines(tags: Seq<Seq<char>>) -> Seq<char>
    decreases tags.len(),
{
    if tags.len() == 0 {
        Seq::empty()
    } else {
        line("tag: "@, tags.first()) + tag_lines(tags.drop_first())
    }
}

/// The dependency lines, one per id, in order.
pub open spec fn dep_lines(deps: Seq<u32>) -> Seq<char>
    decreases deps.len(),
{
    if deps.len() == 0 {
        Seq::empty()
    } else {
        line("dep: "@, dec_digits(deps.first() as nat)) + dep_lines(deps.drop_first())
    }
}

/// The encoded front matter of a task.
pub open spec fn encode_task(t: TaskM) -> Seq<char> {
    "---\n"@
        + line("id: "@, dec_digits(t.id as nat))
        + line("title: "@, t.title)
        + line("status: "@, status_chars(t.status))
        + line("created_at: "@, ts_chars(t.created_at))
        + line("updated_at: "@, ts_chars(t.updated_at))
        + (match t.due {
            Some(d) => line("due: "@, dec_digits(d as nat)),
            None => Seq::empty(),
        })
        + tag_lines(t.tags)
        + (match t.estimate {
            Some(e) => line("estimate: "@, e),
            None => Seq::empty(),
        })
        + dep_lines(t.depends_on)
        + line("pinned: "@, bool_chars(t.pinned))
        + (match t.pinned_at {
            Some(p) => line("pinned_at: "@, ts_chars(p)),
            None => Seq::empty(),
        })
        + line("schema_version: "@, dec_digits(t.schema_version as nat))
        + "---\n"@
}

/// A note with its single normalizing trailing newline.
pub open spec fn normalize_note(n: Seq<char>) -> Seq<char> {
    if n.len() == 0 {
        n
    } else if n.last() == '\n' {
        n
    } else {
        n + "\n"@
    }
}

/// The encoded record: front matter, then a blank separator line and the
/// note when there is one.
pub open spec fn encode_record(t: TaskM, note: Seq<char>) -> Seq<char> {
    encode_task(t) + if note.len() == 0 {
        Seq::empty()
    } else {
        "\n"@ + normalize_note(note)
    }
}

/// The note part of an encoding: a blank separator line, then the
/// normalized note, when there is one.
pub open spec fn note_tail(note: Seq<char>) -> Seq<char> {
    if note.len() == 0 {
        Seq::empty()
    } else {
        "\n"@ + normalize_note(note)
    }
}

/// The encoding suffix from the closing marker on.
pub open spec fn enc_close(note: Seq<char>) -> Seq<char> {
    "---\n"@ + note_tail(note)
}

/// The encoding suffix from the schema line on.
pub open spec fn enc_schema(t: TaskM, note: Seq<char>) -> Seq<char> {
    line("schema_version: "@, dec_digits(t.schema_version as nat)) + enc_close(note)
}

/// The encoding suffix from the optional pin-time line on.
pub open spec fn enc_pat(t: TaskM, note: Seq<char>) -> Seq<char> {
    (match t.pinned_at {
        Some(p) => line("pinned_at: "@, ts_chars(p)),
        None => Seq::empty(),
    }) + enc_schema(t, note)
}

/// The encoding suffix from the pinned line on.
pub open spec fn enc_pin(t: TaskM, note: Seq<char>) -> Seq<char> {
    line("pinned: "@, bool_chars(t.pinned)) + enc_pat(t, note)
}

/// The encoding suffix from the dependency lines on.
pub open spec fn enc_deps(t: TaskM, note: Seq<char>) -> Seq<char> {
    dep_lines(t.depends_on) + enc_pin(t, note)
}

/// The encoding suffix from the optional estimate line on.
pub open spec fn enc_est(t: TaskM, note: Seq<char>) -> Seq<char> {
    (match t.estimate {
        Some(e) => line("estimate: "@, e),
        None => Seq::empty(),
    }) + enc_deps(t, note)
}

/// The encoding suffix from the tag lines on.
pub open spec fn enc_tags(t: TaskM, note: Seq<char>) -> Seq<char> {
    tag_lines(t.tags) + enc_est(t, note)
}

/// The encoding suffix from the optional due line on.
pub open spec fn enc_due(t: TaskM, note: Seq<char>) -> Seq<char> {
    (match t.due {
        Some(d) => line("due: "@, dec_digits(d as nat)),
        None => Seq::empty(),
    }) + enc_tags(t, note)
}

// ------------------------------------------------------------------
// The spec-level parser.
// ------------------------------------------------------------------

/// Parse one `key value \n` line off the front of `s`.
pub open spec fn p_line(s: Seq<char>, key: Seq<char>) -> Option<(Seq<char>, Seq<char>)> {
    if has_prefix_at(s, 0, key) {
        let s2 = s.subrange(key.len() as int, s.len() as int);
        match spec_find_char(s2, 0, '\n') {
            Some(k) => Some((s2.subrange(0, k), s2.subrange(k + 1, s2.len() as int))),
            None => None,
        }
    } else {
        None
    }
}

/// Parse one numeric line off the front of `s`.
pub open spec fn p_num_line(s: Seq<char>, key: Seq<char>) -> Option<(u64, Seq<char>)> {
    match p_line(s, key) {
        Some((v, rest)) => match spec_parse_u64(v) {
            Some(n) => Some((n, rest)),
            None => None,
        },
        None => None,
    }
}

/// Parse a timestamp value: day digits, one space, second digits, both in
/// range.
pub open spec fn p_ts(v: Seq<char>) -> Option<Timestamp> {
    match spec_find_char(v, 0, ' ') {
        Some(k) => {
            let day_part = v.subrange(0, k);
            let sec_part = v.subrange(k + 1, v.len() as int);
            match (spec_parse_u64(day_part), spec_parse_u64(sec_part)) {
                (Some(d), Some(sc)) => if 1 <= d <= u32::MAX && sc < 86400 {
                    Some(Timestamp { day: d as u32, secs: sc as u32 })
                } else {
                    None
                },
                _ => None,
            }
        },
        None => None,
    }
}

/// Recognize a status token.
pub open spec fn status_of_chars(v: Seq<char>) -> Option<Status> {
    if v == "pending"@ {
        Some(Status::Pending)
    } else if v == "in_progress"@ {
        Some(Status::InProgress)
    } else if v == "done"@ {
        Some(Status::Done)
    } else {
        None
    }
}

/// Recognize a boolean token.
pub open spec fn bool_of_chars(v: Seq<char>) -> Option<bool> {
    if v == "true"@ {
        Some(true)
    } else if v == "false"@ {
        Some(false)
    } else {
        None
    }
}

/// Parse the run of tag lines off the front of `s`.
pub open spec fn p_tags(s: Seq<char>) -> (Seq<Seq<char>>, Seq<char>)
    decreases s.len(),
{
    match p_line(s, "tag: "@) {
        Some((v, rest)) => if rest.len() < s.len() {
            let (more, fin) = p_tags(rest);
            (seq![v] + more, fin)
        } else {
            (Seq::empty(), s)
        },
        None => (Seq::empty(), s),
    }
}

/// Parse the run of dependency lines off the front of `s`.
pub open spec fn p_deps(s: Seq<char>) -> (Seq<u32>, Seq<char>)
    decreases s.len(),
{
    match p_num_line(s, "dep: "@) {
        Some((n, rest)) => if n <= u32::MAX && rest.len() < s.len() {
            let (more, fin) = p_deps(rest);
            (seq![n as u32] + more, fin)
        } else {
            (Seq::empty(), s)
        },
        None => (Seq::empty(), s),
    }
}

/// What decoding means. `None` is a rejection: a missing opening or closing
/// marker, or malformed structured content.
pub open spec fn decode_spec(s: Seq<char>) -> Option<(TaskM, Seq<char>)> {
    if !has_prefix_at(s, 0, "---\n"@) {
        None
    } else {
        let s0 = s.subrange("---\n"@.len() as int, s.len() as int);
        match p_num_line(s0, "id: "@) {
            None => None,
            Some((id, s1)) => if id > u32::MAX {
                None
            } else {
                match p_line(s1, "title: "@) {
                    None => None,
                    Some((title, s2)) => match p_line(s2, "status: "@) {
                        None => None,
                        Some((sv, s3)) => match status_of_chars(sv) {
                            None => None,
                            Some(status) => match p_line(s3, "created_at: "@) {
                                None => None,
                                Some((cv, s4)) => match p_ts(cv) {
                                    None => None,
                                    Some(created_at) => match p_line(s4, "updated_at: "@) {
                                        None => None,
                                        Some((uv, s5)) => match p_ts(uv) {
                                            None => None,
                                            Some(updated_at) => decode_tail(
                                                s5, id as u32, title, status, created_at,
                                                updated_at,
                                            ),
                                        },
                                    },
                                },
                            },
                        },
                    },
                }
            },
        }
    }
}

/// The rest of decoding, from the optional due line on.
pub open spec fn decode_tail(
    s5: Seq<char>,
    id: u32,
    title: Seq<char>,
    status: Status,
    created_at: Timestamp,
    updated_at: Timestamp,
) -> Option<(TaskM, Seq<char>)> {
    let (due, s6): (Option<u32>, Seq<char>) = if has_prefix_at(s5, 0, "due: "@) {
        match p_num_line(s5, "due: "@) {
            Some((d, r)) => if d <= u32::MAX {
                (Some(d as u32), r)
            } else {
                (None, s5)
            },
            None => (None, s5),
        }
    } else {
        (None, s5)
    };
    if has_prefix_at(s5, 0, "due: "@) && (p_num_line(s5, "due: "@) is None
        || p_num_line(s5, "due: "@)->Some_0.0 > u32::MAX) {
        // A due line that does not carry a day number is malformed.
        None
    } else {
        let (tags, s7) = p_tags(s6);
        let (estimate, s8): (Option<Seq<char>>, Seq<char>) = if has_prefix_at(
            s7, 0, "estimate: "@) {
            match p_line(s7, "estimate: "@) {
                Some((e, r)) => (Some(e), r),
                None => (None, s7),
            }
        } else {
            (None, s7)
        };
        if has_prefix_at(s7, 0, "estimate: "@) && p_line(s7, "estimate: "@) is None {
            None
        } else {
            let (depends_on, s9) = p_deps(s8);
            match p_line(s9, "pinned: "@) {
                None => None,
                Some((pv, s10)) => match bool_of_chars(pv) {
                    None => None,
                    Some(pinned) => {
                        let (pinned_at, s11): (Option<Timestamp>, Seq<char>) = if has_prefix_at(
                            s10, 0, "pinned_at: "@) {
                            match p_line(s10, "pinned_at: "@) {
                                Some((pav, r)) => match p_ts(pav) {
                                    Some(pa) => (Some(pa), r),
                                    None => (None, s10),
                                },
                                None => (None, s10),
                            }
                        } else {
                            (None, s10)
                        };
                        if has_prefix_at(s10, 0, "pinned_at: "@) && (p_line(s10, "pinned_at: "@)
                            is None || p_ts(p_line(s10, "pinned_at: "@)->Some_0.0) is None) {
                            None
                        } else {
                            match p_num_line(s11, "schema_version: "@) {
                                None => None,
                                Some((sv2, s12)) => if sv2 > u32::MAX {
                                    None
                                } else if !has_prefix_at(s12, 0, "---\n"@) {
                                    None
                                } else {
                                    let rest = s12.subrange(
                                        "---\n"@.len() as int, s12.len() as int);
                                    let note = if rest.len() == 0 {
                                        rest
                                    } else if rest[0] == '\n' {
                                        rest.subrange(1, rest.len() as int)
                                    } else {
                                        rest
                                    };
                                    Some((
                                        TaskM {
                                            id,
                                            title,
                                            status,
                                            created_at,
                                            updated_at,
                                            due,
                                            tags,
                                            estimate,
                                            depends_on,
                                            pinned,
                                            pinned_at,
                                            schema_version: sv2 as u32,
                                        },
                                        note,
                                    ))
                                },
                            }
                        }
                    },
                },
            }
        }
    }
}

// ------------------------------------------------------------------
// Round trip: decoding an encoding gives the record back.
// ------------------------------------------------------------------

/// Digit runs contain no newline.
proof fn lemma_digits_no_nl(s: Seq<char>)
    requires
        crate::numtext::all_digits(s),
    ensures
        no_nl(s),
{
}

/// Timestamp values contain no newline.
proof fn lemma_ts_no_nl(t: Timestamp)
    ensures
        no_nl(ts_chars(t)),
{
    crate::numtext::lemma_dec_digits_val(t.day as nat);
    crate::numtext::lemma_dec_digits_val(t.secs as nat);
    reveal_strlit(" ");
    assert forall|i: int| 0 <= i < ts_chars(t).len() implies ts_chars(t)[i] != '\n' by {
        let v = ts_chars(t);
        let d = dec_digits(t.day as nat);
        let sc = dec_digits(t.secs as nat);
        if i < d.len() {
            assert(v[i] == d[i] && is_digit(d[i]));
        } else if i == d.len() {
            assert(v[i] == ' ');
        } else {
            assert(v[i] == sc[i - d.len() - 1] && is_digit(sc[i - d.len() - 1]));
        }
    };
}

/// Reading one line off `line(key, v) + rest` yields `v` and `rest`.
proof fn lemma_p_line(key: Seq<char>, v: Seq<char>, rest: Seq<char>)
    requires
        no_nl(v),
    ensures
        p_line(line(key, v) + rest, key) == Some((v, rest)),
{
    reveal_strlit("\n");
    let s = line(key, v) + rest;
    assert(s.subrange(0, key.len() as int) =~= key);
    assert(has_prefix_at(s, 0, key));
    let s2 = s.subrange(key.len() as int, s.len() as int);
    assert(s2 =~= v + "\n"@ + rest);
    assert(s2[v.len() as int] == '\n');
    assert(forall|k: int| 0 <= k < v.len() ==> s2[k] == v[k]);
    lemma_find_char_props(s2, 0, '\n');
    match spec_find_char(s2, 0, '\n') {
        Some(j) => {
            if j < v.len() {
                assert(s2[j] == v[j]);
            }
            assert(j == v.len());
            assert(s2.subrange(0, j) =~= v);
            assert(s2.subrange(j + 1, s2.len() as int) =~= rest);
        },
        None => {
            assert(s2[v.len() as int] == '\n');
        },
    }
}

/// Reading one numeric line off `line(key, dec(n)) + rest` yields `n`.
proof fn lemma_p_num_line(key: Seq<char>, n: u64, rest: Seq<char>)
    ensures
        p_num_line(line(key, dec_digits(n as nat)) + rest, key) == Some((n, rest)),
{
    crate::numtext::lemma_dec_digits_val(n as nat);
    lemma_digits_no_nl(dec_digits(n as nat));
    lemma_p_line(key, dec_digits(n as nat), rest);
    lemma_parse_dec_digits(n);
}

/// A timestamp value parses back to the timestamp.
proof fn lemma_p_ts(t: Timestamp)
    requires
        wf_timestamp(t),
    ensures
        p_ts(ts_chars(t)) == Some(t),
{
    reveal_strlit(" ");
    let v = ts_chars(t);
    let d = dec_digits(t.day as nat);
    let sc = dec_digits(t.secs as nat);
    crate::numtext::lemma_dec_digits_val(t.day as nat);
    crate::numtext::lemma_dec_digits_val(t.secs as nat);
    assert(v[d.len() as int] == ' ');
    assert(forall|k: int| 0 <= k < d.len() ==> v[k] == d[k]);
    lemma_find_char_props(v, 0, ' ');
    match spec_find_char(v, 0, ' ') {
        Some(j) => {
            if j < d.len() {
                assert(v[j] == d[j] && is_digit(d[j]));
            }
            assert(j == d.len());
            assert(v.subrange(0, j) =~= d);
            assert(v.subrange(j + 1, v.len() as int) =~= sc);
            lemma_parse_dec_digits(t.day as u64);
            lemma_parse_dec_digits(t.secs as u64);
        },
        None => {
            assert(v[d.len() as int] == ' ');
        },
    }
}

/// The status and boolean tokens are line-safe and mutually distinct.
proof fn lemma_tokens()
    ensures
        no_nl("pending"@),
        no_nl("in_progress"@),
        no_nl("done"@),
        no_nl("true"@),
        no_nl("false"@),
        forall|s: Status| status_of_chars(#[trigger] status_chars(s)) == Some(s),
        forall|b: bool| bool_of_chars(#[trigger] bool_chars(b)) == Some(b),
{
    reveal_strlit("pending");
    reveal_strlit("in_progress");
    reveal_strlit("done");
    reveal_strlit("true");
    reveal_strlit("false");
    assert("pending"@.len() == 7 && "in_progress"@.len() == 11 && "done"@.len() == 4);
    assert("true"@.len() == 4 && "false"@.len() == 5);
    assert("done"@ != "true"@) by {
        assert("done"@[0] == 'd' && "true"@[0] == 't');
    };
    assert forall|i: int| 0 <= i < "pending"@.len() implies "pending"@[i] != '\n' by {
        assert("pending"@[0] == 'p' && "pending"@[1] == 'e' && "pending"@[2] == 'n'
            && "pending"@[3] == 'd' && "pending"@[4] == 'i' && "pending"@[5] == 'n'
            && "pending"@[6] == 'g');
    };
    assert forall|i: int| 0 <= i < "in_progress"@.len() implies "in_progress"@[i] != '\n' by {
        assert("in_progress"@[0] == 'i' && "in_progress"@[1] == 'n'
            && "in_progress"@[2] == '_' && "in_progress"@[3] == 'p'
            && "in_progress"@[4] == 'r' && "in_progress"@[5] == 'o'
            && "in_progress"@[6] == 'g' && "in_progress"@[7] == 'r'
            && "in_progress"@[8] == 'e' && "in_progress"@[9] == 's'
            && "in_progress"@[10] == 's');
    };
    assert forall|i: int| 0 <= i < "done"@.len() implies "done"@[i] != '\n' by {
        assert("done"@[0] == 'd' && "done"@[1] == 'o' && "done"@[2] == 'n'
            && "done"@[3] == 'e');
    };
    assert forall|i: int| 0 <= i < "true"@.len() implies "true"@[i] != '\n' by {
        assert("true"@[0] == 't' && "true"@[1] == 'r' && "true"@[2] == 'u'
            && "true"@[3] == 'e');
    };
    assert forall|i: int| 0 <= i < "false"@.len() implies "false"@[i] != '\n' by {
        assert("false"@[0] == 'f' && "false"@[1] == 'a' && "false"@[2] == 'l'
            && "false"@[3] == 's' && "false"@[4] == 'e');
    };
}

/// A string that begins with one key does not begin with a key that differs
/// at some shared position.
proof fn lemma_prefix_differs(s: Seq<char>, p: Seq<char>, q: Seq<char>, i: int)
    requires
        has_prefix_at(s, 0, q),
        0 <= i < p.len(),
        i < q.len(),
        p[i] != q[i],
    ensures
        !has_prefix_at(s, 0, p),
{
    if has_prefix_at(s, 0, p) {
        assert(s.subrange(0, p.len() as int)[i] == p[i]);
        assert(s.subrange(0, q.len() as int)[i] == q[i]);
        assert(s[i] == p[i] && s[i] == q[i]);
    }
}

/// Tag lines followed by anything that is not a tag line parse back to the
/// tag list.
proof fn lemma_p_tags(tags: Seq<Seq<char>>, rest: Seq<char>)
    requires
        forall|i: int| 0 <= i < tags.len() ==> no_nl(#[trigger] tags[i]),
        !has_prefix_at(rest, 0, "tag: "@),
    ensures
        p_tags(tag_lines(tags) + rest) == (tags, rest),
    decreases tags.len(),
{
    if tags.len() == 0 {
        assert(tag_lines(tags) + rest =~= rest);
    } else {
        let t0 = tags.first();
        let s = tag_lines(tags) + rest;
        let tail = tag_lines(tags.drop_first()) + rest;
        assert(s =~= line("tag: "@, t0) + tail);
        lemma_p_line("tag: "@, t0, tail);
        assert(tail.len() < s.len()) by {
            reveal_strlit("tag: ");
        };
        lemma_p_tags(tags.drop_first(), rest);
        assert(seq![t0] + tags.drop_first() =~= tags);
    }
}

/// Dependency lines followed by anything that is not one parse back to the
/// id list.
proof fn lemma_p_deps(deps: Seq<u32>, rest: Seq<char>)
    requires
        !has_prefix_at(rest, 0, "dep: "@),
    ensures
        p_deps(dep_lines(deps) + rest) == (deps, rest),
    decreases deps.len(),
{
    if deps.len() == 0 {
        assert(dep_lines(deps) + rest =~= rest);
    } else {
        let d0 = deps.first();
        let s = dep_lines(deps) + rest;
        let tail = dep_lines(deps.drop_first()) + rest;
        assert(s =~= line("dep: "@, dec_digits(d0 as nat)) + tail);
        lemma_p_num_line("dep: "@, d0 as u64, tail);
        assert(tail.len() < s.len()) by {
            reveal_strlit("dep: ");
            crate::numtext::lemma_dec_digits_val(d0 as nat);
        };
        lemma_p_deps(deps.drop_first(), rest);
        assert(seq![d0] + deps.drop_first() =~= deps);
    }
}

/// The first characters of the field keys, used to tell them apart.
proof fn lemma_keys()
    ensures
        "due: "@.len() == 5 && "due: "@[0] == 'd' && "due: "@[1] == 'u',
        "tag: "@.len() == 5 && "tag: "@[0] == 't' && "tag: "@[1] == 'a',
        "estimate: "@.len() == 10 && "estimate: "@[0] == 'e',
        "dep: "@.len() == 5 && "dep: "@[0] == 'd' && "dep: "@[1] == 'e',
        "pinned: "@.len() == 8 && "pinned: "@[0] == 'p' && "pinned: "@[6] == ':',
        "pinned_at: "@.len() == 11 && "pinned_at: "@[0] == 'p' && "pinned_at: "@[6] == '_',
        "schema_version: "@.len() == 16 && "schema_version: "@[0] == 's',
        "---\n"@.len() == 4 && "---\n"@[0] == '-',
        "id: "@.len() == 4,
        "title: "@.len() == 7 && "title: "@[0] == 't' && "title: "@[1] == 'i',
        "status: "@.len() == 8 && "status: "@[0] == 's',
        "created_at: "@.len() == 12,
        "updated_at: "@.len() == 12,
        "\n"@.len() == 1 && "\n"@[0] == '\n',
{
    reveal_strlit("due: ");
    reveal_strlit("tag: ");
    reveal_strlit("estimate: ");
    reveal_strlit("dep: ");
    reveal_strlit("pinned: ");
    reveal_strlit("pinned_at: ");
    reveal_strlit("schema_version: ");
    reveal_strlit("---\n");
    reveal_strlit("id: ");
    reveal_strlit("title: ");
    reveal_strlit("status: ");
    reveal_strlit("created_at: ");
    reveal_strlit("updated_at: ");
    reveal_strlit("\n");
}

/// A nonempty concatenation beginning with a key has that key as prefix.
proof fn lemma_self_prefix(s: Seq<char>, key: Seq<char>, v: Seq<char>, rest: Seq<char>)
    requires
        s == line(key, v) + rest,
    ensures
        has_prefix_at(s, 0, key),
{
    assert(s.subrange(0, key.len() as int) =~= key);
}

/// The encoding is the opening marker and the head lines followed by the
/// due-and-after suffix.
proof fn lemma_encode_shape(t: TaskM, note: Seq<char>)
    ensures
        encode_record(t, note) == "---\n"@
            + (line("id: "@, dec_digits(t.id as nat))
            + (line("title: "@, t.title)
            + (line("status: "@, status_chars(t.status))
            + (line("created_at: "@, ts_chars(t.created_at))
            + (line("updated_at: "@, ts_chars(t.updated_at))
            + enc_due(t, note)))))),
{
    let a1 = "---\n"@;
    let a2 = line("id: "@, dec_digits(t.id as nat));
    let a3 = line("title: "@, t.title);
    let a4 = line("status: "@, status_chars(t.status));
    let a5 = line("created_at: "@, ts_chars(t.created_at));
    let a6 = line("updated_at: "@, ts_chars(t.updated_at));
    let a7: Seq<char> = match t.due {
        Some(d) => line("due: "@, dec_digits(d as nat)),
        None => Seq::empty(),
    };
    let a8 = tag_lines(t.tags);
    let a9: Seq<char> = match t.estimate {
        Some(e) => line("estimate: "@, e),
        None => Seq::empty(),
    };
    let a10 = dep_lines(t.depends_on);
    let a11 = line("pinned: "@, bool_chars(t.pinned));
    let a12: Seq<char> = match t.pinned_at {
        Some(p) => line("pinned_at: "@, ts_chars(p)),
        None => Seq::empty(),
    };
    let a13 = line("schema_version: "@, dec_digits(t.schema_version as nat));
    let a14 = "---\n"@;
    let a15 = note_tail(note);
    assert(encode_record(t, note)
        == a1 + a2 + a3 + a4 + a5 + a6 + a7 + a8 + a9 + a10 + a11 + a12 + a13 + a14 + a15);
    // Reassociate one segment at a time, from the right.
    let c14 = a14 + a15;
    assert(enc_close(note) == c14);
    vstd::seq_lib::lemma_concat_associative(
        a1 + a2 + a3 + a4 + a5 + a6 + a7 + a8 + a9 + a10 + a11 + a12 + a13, a14, a15);
    let c13 = a13 + c14;
    assert(enc_schema(t, note) == c13);
    vstd::seq_lib::lemma_concat_associative(
        a1 + a2 + a3 + a4 + a5 + a6 + a7 + a8 + a9 + a10 + a11 + a12, a13, c14);
    let c12 = a12 + c13;
    assert(enc_pat(t, note) == c12);
    vstd::seq_lib::lemma_concat_associative(
        a1 + a2 + a3 + a4 + a5 + a6 + a7 + a8 + a9 + a10 + a11, a12, c13);
    let c11 = a11 + c12;
    assert(enc_pin(t, note) == c11);
    vstd::seq_lib::lemma_concat_associative(
        a1 + a2 + a3 + a4 + a5 + a6 + a7 + a8 + a9 + a10, a11, c12);
    let c10 = a10 + c11;
    assert(enc_deps(t, note) == c10);
    vstd::seq_lib::lemma_concat_associative(
        a1 + a2 + a3 + a4 + a5 + a6 + a7 + a8 + a9, a10, c11);
    let c9 = a9 + c10;
    assert(enc_est(t, note) == c9);
    vstd::seq_lib::lemma_concat_associative(a1 + a2 + a3 + a4 + a5 + a6 + a7 + a8, a9, c10);
    let c8 = a8 + c9;
    assert(enc_tags(t, note) == c8);
    vstd::seq_lib::lemma_concat_associative(a1 + a2 + a3 + a4 + a5 + a6 + a7, a8, c9);
    let c7 = a7 + c8;
    assert(enc_due(t, note) == c7);
    vstd::seq_lib::lemma_concat_associative(a1 + a2 + a3 + a4 + a5 + a6, a7, c8);
    let c6 = a6 + c7;
    vstd::seq_lib::lemma_concat_associative(a1 + a2 + a3 + a4 + a5, a6, c7);
    let c5 = a5 + c6;
    vstd::seq_lib::lemma_concat_associative(a1 + a2 + a3 + a4, a5, c6);
    let c4 = a4 + c5;
    vstd::seq_lib::lemma_concat_associative(a1 + a2 + a3, a4, c5);
    let c3 = a3 + c4;
    vstd::seq_lib::lemma_concat_associative(a1 + a2, a3, c4);
    let c2 = a2 + c3;
    vstd::seq_lib::lemma_concat_associative(a1, a2, c3);
    assert(encode_record(t, note) == a1 + c2);
}

/// What the suffix after the tag lines starts with rules a tag line out.
proof fn lemma_est_not_tag(t: TaskM, note: Seq<char>)
    ensures
        !has_prefix_at(enc_est(t, note), 0, "tag: "@),
{
    lemma_keys();
    let r_est = enc_est(t, note);
    match t.estimate {
        Some(e) => {
            lemma_self_prefix(r_est, "estimate: "@, e, enc_deps(t, note));
            lemma_prefix_differs(r_est, "tag: "@, "estimate: "@, 0);
        },
        None => {
            assert(r_est =~= enc_deps(t, note));
            if t.depends_on.len() > 0 {
                assert(enc_deps(t, note) =~= line("dep: "@,
                    dec_digits(t.depends_on.first() as nat))
                    + (dep_lines(t.depends_on.drop_first()) + enc_pin(t, note)));
                lemma_self_prefix(enc_deps(t, note), "dep: "@,
                    dec_digits(t.depends_on.first() as nat),
                    dep_lines(t.depends_on.drop_first()) + enc_pin(t, note));
                lemma_prefix_differs(r_est, "tag: "@, "dep: "@, 0);
            } else {
                assert(enc_deps(t, note) =~= enc_pin(t, note));
                lemma_self_prefix(enc_pin(t, note), "pinned: "@, bool_chars(t.pinned),
                    enc_pat(t, note));
                lemma_prefix_differs(r_est, "tag: "@, "pinned: "@, 0);
            }
        },
    }
}

/// The suffix after the estimate line carries no estimate line.
proof fn lemma_deps_not_est(t: TaskM, note: Seq<char>)
    ensures
        !has_prefix_at(enc_deps(t, note), 0, "estimate: "@),
{
    lemma_keys();
    let r_deps = enc_deps(t, note);
    if t.depends_on.len() > 0 {
        assert(r_deps =~= line("dep: "@, dec_digits(t.depends_on.first() as nat))
            + (dep_lines(t.depends_on.drop_first()) + enc_pin(t, note)));
        lemma_self_prefix(r_deps, "dep: "@, dec_digits(t.depends_on.first() as nat),
            dep_lines(t.depends_on.drop_first()) + enc_pin(t, note));
        lemma_prefix_differs(r_deps, "estimate: "@, "dep: "@, 0);
    } else {
        assert(r_deps =~= enc_pin(t, note));
        lemma_self_prefix(enc_pin(t, note), "pinned: "@, bool_chars(t.pinned),
            enc_pat(t, note));
        lemma_prefix_differs(r_deps, "estimate: "@, "pinned: "@, 0);
    }
}

/// The suffix after the dependency lines carries no dependency line.
proof fn lemma_pin_not_dep(t: TaskM, note: Seq<char>)
    ensures
        !has_prefix_at(enc_pin(t, note), 0, "dep: "@),
{
    lemma_keys();
    lemma_self_prefix(enc_pin(t, note), "pinned: "@, bool_chars(t.pinned), enc_pat(t, note));
    lemma_prefix_differs(enc_pin(t, note), "dep: "@, "pinned: "@, 0);
}

/// The suffix after the optional due line carries no due line.
proof fn lemma_tags_not_due(t: TaskM, note: Seq<char>)
    ensures
        !has_prefix_at(enc_tags(t, note), 0, "due: "@),
{
    lemma_keys();
    let r_tags = enc_tags(t, note);
    if t.tags.len() > 0 {
        assert(r_tags =~= line("tag: "@, t.tags.first())
            + (tag_lines(t.tags.drop_first()) + enc_est(t, note)));
        lemma_self_prefix(r_tags, "tag: "@, t.tags.first(),
            tag_lines(t.tags.drop_first()) + enc_est(t, note));
        lemma_prefix_differs(r_tags, "due: "@, "tag: "@, 0);
    } else {
        assert(r_tags =~= enc_est(t, note));
        match t.estimate {
            Some(e) => {
                lemma_self_prefix(enc_est(t, note), "estimate: "@, e, enc_deps(t, note));
                lemma_prefix_differs(r_tags, "due: "@, "estimate: "@, 0);
            },
            None => {
                assert(enc_est(t, note) =~= enc_deps(t, note));
                if t.depends_on.len() > 0 {
                    assert(enc_deps(t, note) =~= line("dep: "@,
                        dec_digits(t.depends_on.first() as nat))
                        + (dep_lines(t.depends_on.drop_first()) + enc_pin(t, note)));
                    lemma_self_prefix(enc_deps(t, note), "dep: "@,
                        dec_digits(t.depends_on.first() as nat),
                        dep_lines(t.depends_on.drop_first()) + enc_pin(t, note));
                    lemma_prefix_differs(r_tags, "due: "@, "dep: "@, 1);
                } else {
                    assert(enc_deps(t, note) =~= enc_pin(t, note));
                    lemma_self_prefix(enc_pin(t, note), "pinned: "@, bool_chars(t.pinned),
                        enc_pat(t, note));
                    lemma_prefix_differs(r_tags, "due: "@, "pinned: "@, 0);
                }
            },
        }
    }
}

/// The suffix after the optional pin-time line carries none.
proof fn lemma_schema_not_pat(t: TaskM, note: Seq<char>)
    ensures
        !has_prefix_at(enc_schema(t, note), 0, "pinned_at: "@),
{
    lemma_keys();
    lemma_self_prefix(enc_schema(t, note), "schema_version: "@,
        dec_digits(t.schema_version as nat), enc_close(note));
    lemma_prefix_differs(enc_schema(t, note), "pinned_at: "@, "schema_version: "@, 0);
}

/// Decoding the due-and-after suffix of an encoding recovers the remaining
/// fields and the note.
#[verifier::rlimit(60)]
proof fn lemma_decode_tail(t: TaskM, note: Seq<char>)
    requires
        wf_task(t),
    ensures
        decode_tail(enc_due(t, note), t.id, t.title, t.status, t.created_at, t.updated_at)
            == Some((t, normalize_note(note))),
{
    lemma_tokens();
    lemma_keys();
    let s5 = enc_due(t, note);
    lemma_tags_not_due(t, note);
    match t.due {
        Some(d) => {
            crate::numtext::lemma_dec_digits_val(d as nat);
            lemma_p_num_line("due: "@, d as u64, enc_tags(t, note));
            lemma_self_prefix(s5, "due: "@, dec_digits(d as nat), enc_tags(t, note));
        },
        None => {
            assert(s5 =~= enc_tags(t, note));
        },
    }
    lemma_est_not_tag(t, note);
    lemma_p_tags(t.tags, enc_est(t, note));
    lemma_deps_not_est(t, note);
    match t.estimate {
        Some(e) => {
            lemma_p_line("estimate: "@, e, enc_deps(t, note));
            lemma_self_prefix(enc_est(t, note), "estimate: "@, e, enc_deps(t, note));
        },
        None => {
            assert(enc_est(t, note) =~= enc_deps(t, note));
        },
    }
    lemma_pin_not_dep(t, note);
    lemma_p_deps(t.depends_on, enc_pin(t, note));
    lemma_p_line("pinned: "@, bool_chars(t.pinned), enc_pat(t, note));
    lemma_schema_not_pat(t, note);
    match t.pinned_at {
        Some(p) => {
            lemma_ts_no_nl(p);
            lemma_p_line("pinned_at: "@, ts_chars(p), enc_schema(t, note));
            lemma_p_ts(p);
            lemma_self_prefix(enc_pat(t, note), "pinned_at: "@, ts_chars(p),
                enc_schema(t, note));
        },
        None => {
            assert(enc_pat(t, note) =~= enc_schema(t, note));
        },
    }
    lemma_p_num_line("schema_version: "@, t.schema_version as u64, enc_close(note));
    assert(enc_close(note).subrange(0, 4) =~= "---\n"@);
    assert(has_prefix_at(enc_close(note), 0, "---\n"@));
    assert(enc_close(note).subrange(4, enc_close(note).len() as int) =~= note_tail(note));
    if note.len() == 0 {
        assert(note_tail(note).len() == 0);
    } else {
        assert(note_tail(note)[0] == '\n');
        assert(note_tail(note).subrange(1, note_tail(note).len() as int)
            =~= normalize_note(note));
    }
    match decode_tail(s5, t.id, t.title, t.status, t.created_at, t.updated_at) {
        Some((t2, n2)) => {
            assert(t2 =~= t);
            assert(n2 == normalize_note(note));
        },
        None => {
            assert(false);
        },
    }
}

/// Decoding the encoding of a well-formed record reproduces the structured
/// fields exactly, and the note up to one normalizing trailing newline.
#[verifier::rlimit(60)]
pub proof fn lemma_round_trip(t: TaskM, note: Seq<char>)
    requires
        wf_task(t),
    ensures
        decode_spec(encode_record(t, note)) == Some((t, normalize_note(note))),
{
    lemma_tokens();
    lemma_keys();
    crate::numtext::lemma_dec_digits_val(t.id as nat);
    lemma_ts_no_nl(t.created_at);
    lemma_ts_no_nl(t.updated_at);
    lemma_encode_shape(t, note);

    let r_due = enc_due(t, note);
    let r_upd = line("updated_at: "@, ts_chars(t.updated_at)) + r_due;
    let r_cre = line("created_at: "@, ts_chars(t.created_at)) + r_upd;
    let r_sta = line("status: "@, status_chars(t.status)) + r_cre;
    let r_tit = line("title: "@, t.title) + r_sta;
    let r_id = line("id: "@, dec_digits(t.id as nat)) + r_tit;

    let s = encode_record(t, note);
    assert(s =~= "---\n"@ + r_id);
    assert(s.subrange(0, 4) =~= "---\n"@);
    assert(has_prefix_at(s, 0, "---\n"@));
    let s0 = s.subrange(4, s.len() as int);
    assert(s0 =~= r_id);

    lemma_p_num_line("id: "@, t.id as u64, r_tit);
    lemma_p_line("title: "@, t.title, r_sta);
    lemma_p_line("status: "@, status_chars(t.status), r_cre);
    lemma_p_line("created_at: "@, ts_chars(t.created_at), r_upd);
    lemma_p_ts(t.created_at);
    lemma_p_line("updated_at: "@, ts_chars(t.updated_at), r_due);
    lemma_p_ts(t.updated_at);
    lemma_decode_tail(t, note);
}

// ------------------------------------------------------------------
// Executable encoder.
// ------------------------------------------------------------------

/// Append one timestamp value.
fn push_ts(out: &mut String, t: &Timestamp)
    ensures
        final(out)@ == old(out)@ + ts_chars(*t),
{
    push_dec(out, t.day as u64);
    out.append(" ");
    push_dec(out, t.secs as u64);
    proof {
        assert(out@ =~= old(out)@ + ts_chars(*t));
    }
}

/// Appending one more tag line extends the rendered run.
proof fn lemma_tag_lines_snoc(tags: Seq<Seq<char>>, i: int)
    requires
        0 <= i < tags.len(),
    ensures
        tag_lines(tags.take(i + 1)) == tag_lines(tags.take(i)) + line("tag: "@, tags[i]),
    decreases i,
{
    if i == 0 {
        assert(tags.take(1) =~= seq![tags[0]]);
        assert(tags.take(0) =~= Seq::<Seq<char>>::empty());
        assert(seq![tags[0]].drop_first() =~= Seq::<Seq<char>>::empty());
        assert(tag_lines(seq![tags[0]]) == line("tag: "@, tags[0]) + tag_lines(
            Seq::<Seq<char>>::empty()));
        assert(tag_lines(tags.take(1)) =~= tag_lines(tags.take(0)) + line("tag: "@, tags[0]));
    } else {
        let tl = tags.drop_first();
        lemma_tag_lines_snoc(tl, i - 1);
        assert(tags.take(i + 1).drop_first() =~= tl.take(i));
        assert(tags.take(i).drop_first() =~= tl.take(i - 1));
        assert(tags.take(i + 1).first() == tags[0] && tags.take(i).first() == tags[0]);
        assert(tl[i - 1] == tags[i]);
        vstd::seq_lib::lemma_concat_associative(line("tag: "@, tags[0]),
            tag_lines(tl.take(i - 1)), line("tag: "@, tags[i]));
    }
}

/// Appending one more dependency line extends the rendered run.
proof fn lemma_dep_lines_snoc(deps: Seq<u32>, i: int)
    requires
        0 <= i < deps.len(),
    ensures
        dep_lines(deps.take(i + 1)) == dep_lines(deps.take(i))
            + line("dep: "@, dec_digits(deps[i] as nat)),
    decreases i,
{
    if i == 0 {
        assert(deps.take(1) =~= seq![deps[0]]);
        assert(deps.take(0) =~= Seq::<u32>::empty());
        assert(seq![deps[0]].drop_first() =~= Seq::<u32>::empty());
        assert(dep_lines(deps.take(1)) =~= dep_lines(deps.take(0))
            + line("dep: "@, dec_digits(deps[0] as nat)));
    } else {
        let tl = deps.drop_first();
        lemma_dep_lines_snoc(tl, i - 1);
        assert(deps.take(i + 1).drop_first() =~= tl.take(i));
        assert(deps.take(i).drop_first() =~= tl.take(i - 1));
        assert(deps.take(i + 1).first() == deps[0] && deps.take(i).first() == deps[0]);
        assert(tl[i - 1] == deps[i]);
        vstd::seq_lib::lemma_concat_associative(line("dep: "@, dec_digits(deps[0] as nat)),
            dep_lines(tl.take(i - 1)), line("dep: "@, dec_digits(deps[i] as nat)));
    }
}

/// The leading fixed fields of an encoding, opening marker included.
pub open spec fn enc_header(t: TaskM) -> Seq<char> {
    "---\n"@
        + line("id: "@, dec_digits(t.id as nat))
        + line("title: "@, t.title)
        + line("status: "@, status_chars(t.status))
        + line("created_at: "@, ts_chars(t.created_at))
        + line("updated_at: "@, ts_chars(t.updated_at))
        + (match t.due {
            Some(d) => line("due: "@, dec_digits(d as nat)),
            None => Seq::empty(),
        })
}

/// The trailing fixed fields of an encoding, closing marker included.
pub open spec fn enc_footer(t: TaskM) -> Seq<char> {
    line("pinned: "@, bool_chars(t.pinned))
        + (match t.pinned_at {
            Some(p) => line("pinned_at: "@, ts_chars(p)),
            None => Seq::empty(),
        })
        + line("schema_version: "@, dec_digits(t.schema_version as nat))
        + "---\n"@
}

/// Append the leading fixed fields.
#[verifier::rlimit(100)]
fn push_header(out: &mut String, task: &Task)
    ensures
        final(out)@ == old(out)@ + enc_header(task@),
{
    out.append("---\n");
    out.append("id: ");
    push_dec(out, task.id as u64);
    out.append("\n");
    out.append("title: ");
    out.append(task.title.as_str());
    out.append("\n");
    out.append("status: ");
    match task.status {
        Status::Pending => out.append("pending"),
        Status::InProgress => out.append("in_progress"),
        Status::Done => out.append("done"),
    }
    out.append("\n");
    out.append("created_at: ");
    push_ts(out, &task.created_at);
    out.append("\n");
    out.append("updated_at: ");
    push_ts(out, &task.updated_at);
    out.append("\n");
    match task.due {
        Some(d) => {
            out.append("due: ");
            push_dec(out, d as u64);
            out.append("\n");
        },
        None => {},
    }
    proof {
        assert(out@ =~= old(out)@ + enc_header(task@));
    }
}

/// Append the tag lines.
fn push_tags(out: &mut String, task: &Task)
    ensures
        final(out)@ == old(out)@ + tag_lines(task@.tags),
{
    let ghost t = task@;
    let ghost base = out@;
    proof {
        assert(t.tags.take(0) =~= Seq::<Seq<char>>::empty());
        assert(out@ =~= base + tag_lines(t.tags.take(0)));
    }
    let mut i: usize = 0;
    while i < task.tags.len()
        invariant
            0 <= i <= t.tags.len(),
            task@ == t,
            out@ == base + tag_lines(t.tags.take(i as int)),
        decreases t.tags.len() - i,
    {
        out.append("tag: ");
        out.append(task.tags[i].as_str());
        out.append("\n");
        proof {
            lemma_tag_lines_snoc(t.tags, i as int);
            assert(task.tags@[i as int]@ == t.tags[i as int]);
            assert(out@ =~= base + tag_lines(t.tags.take(i + 1)));
        }
        i += 1;
    }
    proof {
        assert(t.tags.take(t.tags.len() as int) =~= t.tags);
    }
}

/// Append the optional estimate line.
fn push_estimate(out: &mut String, task: &Task)
    ensures
        final(out)@ == old(out)@ + (match task@.estimate {
            Some(e) => line("estimate: "@, e),
            None => Seq::empty(),
        }),
{
    match &task.estimate {
        Some(e) => {
            out.append("estimate: ");
            out.append(e.as_str());
            out.append("\n");
            proof {
                assert(out@ =~= old(out)@ + line("estimate: "@, task@.estimate->Some_0));
            }
        },
        None => {},
    }
}

/// Append the dependency lines.
fn push_deps(out: &mut String, task: &Task)
    ensures
        final(out)@ == old(out)@ + dep_lines(task@.depends_on),
{
    let ghost t = task@;
    let ghost base = out@;
    proof {
        assert(t.depends_on.take(0) =~= Seq::<u32>::empty());
        assert(out@ =~= base + dep_lines(t.depends_on.take(0)));
    }
    let mut j: usize = 0;
    while j < task.depends_on.len()
        invariant
            0 <= j <= t.depends_on.len(),
            task@ == t,
            out@ == base + dep_lines(t.depends_on.take(j as int)),
        decreases t.depends_on.len() - j,
    {
        out.append("dep: ");
        push_dec(out, task.depends_on[j] as u64);
        out.append("\n");
        proof {
            lemma_dep_lines_snoc(t.depends_on, j as int);
            assert(out@ =~= base + dep_lines(t.depends_on.take(j + 1)));
        }
        j += 1;
    }
    proof {
        assert(t.depends_on.take(t.depends_on.len() as int) =~= t.depends_on);
    }
}

/// Append the trailing fixed fields.
#[verifier::rlimit(100)]
fn push_footer(out: &mut String, task: &Task)
    ensures
        final(out)@ == old(out)@ + enc_footer(task@),
{
    out.append("pinned: ");
    if task.pinned {
        out.append("true");
    } else {
        out.append("false");
    }
    out.append("\n");
    match &task.pinned_at {
        Some(p) => {
            out.append("pinned_at: ");
            push_ts(out, p);
            out.append("\n");
        },
        None => {},
    }
    out.append("schema_version: ");
    push_dec(out, task.schema_version as u64);
    out.append("\n");
    out.append("---\n");
    proof {
        assert(out@ =~= old(out)@ + enc_footer(task@));
    }
}

/// Append the note part.
fn push_note(out: &mut String, body: &str)
    ensures
        final(out)@ == old(out)@ + note_tail(body@),
{
    if body.unicode_len() > 0 {
        out.append("\n");
        out.append(body);
        let last = body.get_char(body.unicode_len() - 1);
        if last != '\n' {
            out.append("\n");
        }
        proof {
            assert(out@ =~= old(out)@ + note_tail(body@));
        }
    }
}

/// The encoding decomposes into header, tags, estimate, dependencies,
/// footer, and the note part.
proof fn lemma_encode_chunks(t: TaskM, note: Seq<char>)
    ensures
        encode_record(t, note) == enc_header(t) + tag_lines(t.tags) + (match t.estimate {
            Some(e) => line("estimate: "@, e),
            None => Seq::empty(),
        }) + dep_lines(t.depends_on) + enc_footer(t) + note_tail(note),
{
    assert(encode_record(t, note) =~= enc_header(t) + tag_lines(t.tags) + (match t.estimate {
        Some(e) => line("estimate: "@, e),
        None => Seq::empty(),
    }) + dep_lines(t.depends_on) + enc_footer(t) + note_tail(note));
}

/// Serialize a well-formed record: the delimited front matter block, then
/// the note with one normalizing trailing newline.
pub fn serialize(task: &Task, body: &str) -> (r: Result<String, TaskCtlError>)
    requires
        wf_task(task@),
    ensures
        r matches Ok(s) && s@ == encode_record(task@, body@),
{
    let mut out = String::new();
    push_header(&mut out, task);
    push_tags(&mut out, task);
    push_estimate(&mut out, task);
    push_deps(&mut out, task);
    push_footer(&mut out, task);
    push_note(&mut out, body);
    proof {
        lemma_encode_chunks(task@, body@);
        assert(out@ =~= encode_record(task@, body@));
    }
    Ok(out)
}

// ------------------------------------------------------------------
// Executable decoder.
// ------------------------------------------------------------------

/// The error a rejected record maps to: it carries the source path.
pub open spec fn parse_err_with(e: TaskCtlError, path: Seq<char>) -> bool {
    match e {
        TaskCtlError::ParseError { path: p, detail: _ } => p@ == path,
        _ => false,
    }
}

/// Build the rejection error for a path.
fn parse_error(path: &str, msg: &str) -> (r: TaskCtlError)
    ensures
        parse_err_with(r, path@),
{
    TaskCtlError::ParseError { path: String::from_str(path), detail: String::from_str(msg) }
}

/// Finding a character in a suffix is finding it after the offset.
pub proof fn lemma_find_suffix(s: Seq<char>, off: int, c: char)
    requires
        0 <= off <= s.len(),
    ensures
        match spec_find_char(s, off, c) {
            Some(j) => spec_find_char(s.subrange(off, s.len() as int), 0, c) == Some(j - off),
            None => spec_find_char(s.subrange(off, s.len() as int), 0, c) is None,
        },
{
    let sub = s.subrange(off, s.len() as int);
    lemma_find_char_props(s, off, c);
    lemma_find_char_props(sub, 0, c);
    match spec_find_char(s, off, c) {
        Some(j) => {
            assert(sub[j - off] == c);
            match spec_find_char(sub, 0, c) {
                Some(k) => {
                    if k < j - off {
                        assert(s[off + k] == sub[k]);
                    }
                },
                None => {},
            }
        },
        None => {
            match spec_find_char(sub, 0, c) {
                Some(k) => {
                    assert(s[off + k] == sub[k]);
                },
                None => {},
            }
        },
    }
}

/// Prefixes of a suffix are prefixes at the offset.
proof fn lemma_prefix_shift(s: Seq<char>, pos: int, key: Seq<char>)
    requires
        0 <= pos <= s.len(),
    ensures
        has_prefix_at(s.subrange(pos, s.len() as int), 0, key) == has_prefix_at(s, pos, key),
{
    let sub = s.subrange(pos, s.len() as int);
    if pos + key.len() <= s.len() {
        assert(sub.subrange(0, key.len() as int) =~= s.subrange(pos, pos + key.len() as int));
    }
}

/// A parsed line value holds no newline.
proof fn lemma_p_line_value_no_nl(s: Seq<char>, key: Seq<char>)
    ensures
        p_line(s, key) matches Some(p) ==> no_nl(p.0),
{
    if has_prefix_at(s, 0, key) {
        let s2 = s.subrange(key.len() as int, s.len() as int);
        lemma_find_char_props(s2, 0, '\n');
    }
}

/// Read one keyed line at `pos`, giving the value and the position after.
fn read_line<'a>(s: &'a str, pos: usize, key: &str) -> (r: Option<(&'a str, usize)>)
    requires
        pos <= s@.len(),
    ensures
        ({
            let suffix = s@.subrange(pos as int, s@.len() as int);
            match p_line(suffix, key@) {
                Some(p) => r matches Some(q) && q.0@ == p.0 && pos < q.1 <= s@.len()
                    && s@.subrange(q.1 as int, s@.len() as int) == p.1,
                None => r is None,
            }
        }),
{
    let ghost suffix = s@.subrange(pos as int, s@.len() as int);
    let n = s.unicode_len();
    let klen = key.unicode_len();
    proof {
        lemma_prefix_shift(s@, pos as int, key@);
    }
    if !prefix_at(s, pos, key) {
        return None;
    }
    let vstart = pos + klen;
    let ghost s2 = suffix.subrange(key@.len() as int, suffix.len() as int);
    proof {
        assert(s2 =~= s@.subrange(vstart as int, s@.len() as int));
        lemma_find_suffix(s@, vstart as int, '\n');
    }
    match find_char(s, vstart, '\n') {
        Some(e) => {
            let value = s.substring_char(vstart, e);
            proof {
                assert(spec_find_char(s2, 0, '\n') == Some(e - vstart));
                assert(value@ =~= s2.subrange(0, e - vstart));
                assert(s@.subrange(e + 1, s@.len() as int)
                    =~= s2.subrange(e - vstart + 1, s2.len() as int));
            }
            Some((value, e + 1))
        },
        None => {
            proof {
                assert(spec_find_char(s2, 0, '\n') is None);
            }
            None
        },
    }
}

/// Read one keyed numeric line at `pos`.
fn read_num_line(s: &str, pos: usize, key: &str) -> (r: Option<(u64, usize)>)
    requires
        pos <= s@.len(),
    ensures
        ({
            let suffix = s@.subrange(pos as int, s@.len() as int);
            match p_num_line(suffix, key@) {
                Some(p) => r matches Some(q) && q.0 == p.0 && pos < q.1 <= s@.len()
                    && s@.subrange(q.1 as int, s@.len() as int) == p.1,
                None => r is None,
            }
        }),
{
    match read_line(s, pos, key) {
        Some((v, np)) => {
            let vn = v.unicode_len();
            proof {
                assert(v@.subrange(0, v@.len() as int) =~= v@);
            }
            match parse_u64_range(v, 0, vn) {
                Some(n) => Some((n, np)),
                None => None,
            }
        },
        None => None,
    }
}

/// Parse a timestamp value.
fn read_ts(v: &str) -> (r: Option<Timestamp>)
    ensures
        r == p_ts(v@),
{
    let n = v.unicode_len();
    match find_char(v, 0, ' ') {
        Some(k) => {
            let d = parse_u64_range(v, 0, k);
            let sc = parse_u64_range(v, k + 1, n);
            proof {
                assert(v@.subrange(k + 1, v@.len() as int)
                    == v@.subrange(k as int + 1, v@.len() as int));
            }
            match (d, sc) {
                (Some(dv), Some(scv)) => {
                    if 1 <= dv && dv <= u32::MAX as u64 && scv < 86400 {
                        Some(Timestamp { day: dv as u32, secs: scv as u32 })
                    } else {
                        None
                    }
                },
                _ => None,
            }
        },
        None => None,
    }
}

/// Read the run of tag lines at `pos`.
fn read_tags(s: &str, pos: usize) -> (r: (Vec<String>, usize))
    requires
        pos <= s@.len(),
    ensures
        ({
            let suffix = s@.subrange(pos as int, s@.len() as int);
            r.0@.map_values(|x: String| x@) == p_tags(suffix).0
                && pos <= r.1 <= s@.len()
                && s@.subrange(r.1 as int, s@.len() as int) == p_tags(suffix).1
                && (forall|i: int| 0 <= i < r.0@.len() ==> no_nl(#[trigger] r.0@[i]@))
        }),
{
    let ghost suffix0 = s@.subrange(pos as int, s@.len() as int);
    let mut acc: Vec<String> = Vec::new();
    let mut cur: usize = pos;
    loop
        invariant
            pos <= cur <= s@.len(),
            p_tags(suffix0).0 == acc@.map_values(|x: String| x@)
                + p_tags(s@.subrange(cur as int, s@.len() as int)).0,
            p_tags(suffix0).1 == p_tags(s@.subrange(cur as int, s@.len() as int)).1,
            forall|i: int| 0 <= i < acc@.len() ==> no_nl(#[trigger] acc@[i]@),
        ensures
            pos <= cur <= s@.len(),
            p_tags(suffix0).0 == acc@.map_values(|x: String| x@),
            p_tags(suffix0).1 == s@.subrange(cur as int, s@.len() as int),
            forall|i: int| 0 <= i < acc@.len() ==> no_nl(#[trigger] acc@[i]@),
        decreases s@.len() - cur,
    {
        let ghost cur_suffix = s@.subrange(cur as int, s@.len() as int);
        match read_line(s, cur, "tag: ") {
            Some((v, np)) => {
                proof {
                    lemma_p_line_value_no_nl(cur_suffix, "tag: "@);
                    let rest = p_line(cur_suffix, "tag: "@)->Some_0.1;
                    assert(rest.len() < cur_suffix.len());
                    assert(p_tags(cur_suffix).0 =~= seq![v@] + p_tags(rest).0);
                }
                let ghost acc0 = acc@;
                acc.push(String::from_str(v));
                proof {
                    assert(acc@.map_values(|x: String| x@)
                        =~= acc0.map_values(|x: String| x@).push(v@));
                    let rest = p_line(cur_suffix, "tag: "@)->Some_0.1;
                    assert(p_tags(suffix0).0 =~= acc@.map_values(|x: String| x@)
                        + p_tags(rest).0) by {
                        assert(acc0.map_values(|x: String| x@) + (seq![v@] + p_tags(rest).0)
                            =~= (acc0.map_values(|x: String| x@).push(v@)) + p_tags(rest).0);
                    };
                }
                cur = np;
            },
            None => {
                proof {
                    assert(p_tags(cur_suffix).0 =~= Seq::<Seq<char>>::empty());
                    assert(acc@.map_values(|x: String| x@)
                        + Seq::<Seq<char>>::empty() =~= acc@.map_values(|x: String| x@));
                    assert(p_tags(cur_suffix).1 == cur_suffix);
                }
                break;
            },
        }
    }
    (acc, cur)
}

/// Read the run of dependency lines at `pos`.
fn read_deps(s: &str, pos: usize) -> (r: (Vec<u32>, usize))
    requires
        pos <= s@.len(),
    ensures
        ({
            let suffix = s@.subrange(pos as int, s@.len() as int);
            r.0@ == p_deps(suffix).0
                && pos <= r.1 <= s@.len()
                && s@.subrange(r.1 as int, s@.len() as int) == p_deps(suffix).1
        }),
{
    let ghost suffix0 = s@.subrange(pos as int, s@.len() as int);
    let mut acc: Vec<u32> = Vec::new();
    let mut cur: usize = pos;
    loop
        invariant
            pos <= cur <= s@.len(),
            p_deps(suffix0).0 == acc@ + p_deps(s@.subrange(cur as int, s@.len() as int)).0,
            p_deps(suffix0).1 == p_deps(s@.subrange(cur as int, s@.len() as int)).1,
        ensures
            pos <= cur <= s@.len(),
            p_deps(suffix0).0 == acc@,
            p_deps(suffix0).1 == s@.subrange(cur as int, s@.len() as int),
        decreases s@.len() - cur,
    {
        let ghost cur_suffix = s@.subrange(cur as int, s@.len() as int);
        match read_num_line(s, cur, "dep: ") {
            Some((n, np)) => {
                if n > u32::MAX as u64 {
                    proof {
                        assert(p_deps(cur_suffix).0 =~= Seq::<u32>::empty());
                        assert(acc@ + Seq::<u32>::empty() =~= acc@);
                    }
                    break;
                }
                let ghost acc0 = acc@;
                acc.push(n as u32);
                proof {
                    let rest = p_num_line(cur_suffix, "dep: "@)->Some_0.1;
                    assert(rest.len() < cur_suffix.len());
                    assert(p_deps(cur_suffix).0 =~= seq![n as u32] + p_deps(rest).0);
                    assert(p_deps(suffix0).0 =~= acc@ + p_deps(rest).0) by {
                        assert(acc0 + (seq![n as u32] + p_deps(rest).0)
                            =~= acc0.push(n as u32) + p_deps(rest).0);
                        assert(acc@ =~= acc0.push(n as u32));
                    };
                }
                cur = np;
            },
            None => {
                proof {
                    assert(p_deps(cur_suffix).0 =~= Seq::<u32>::empty());
                    assert(acc@ + Seq::<u32>::empty() =~= acc@);
                }
                break;
            },
        }
    }
    (acc, cur)
}

/// Parse a stored record: reject input whose opening or closing marker is
/// missing or whose structured block is malformed, and otherwise split it
/// into the task and the trailing note. The rejection carries `path`. The
/// opening marker must stand at the very first character: no leading
/// whitespace is tolerated.
#[verifier::rlimit(100)]
pub fn parse(content: &str, path: &str) -> (r: Result<(Task, String), TaskCtlError>)
    ensures
        match decode_spec(content@) {
            Some(p) => r matches Ok(q) && q.0@ == p.0 && q.1@ == p.1 && wf_task(q.0@),
            None => r matches Err(e) && parse_err_with(e, path@),
        },
{
    let s = content;
    let n = s.unicode_len();
    proof {
        lemma_prefix_shift(s@, 0, "---\n"@);
        assert(s@.subrange(0, s@.len() as int) =~= s@);
    }
    if !prefix_at(s, 0, "---\n") {
        return Err(parse_error(path, "Missing front matter delimiter"));
    }
    let open_len = "---\n".unicode_len();
    let pos0 = open_len;
    let ghost s0 = s@.subrange("---\n"@.len() as int, s@.len() as int);

    // id
    let (id64, pos1) = match read_num_line(s, pos0, "id: ") {
        Some(p) => p,
        None => {
            return Err(parse_error(path, "Malformed id"));
        },
    };
    if id64 > u32::MAX as u64 {
        return Err(parse_error(path, "Malformed id"));
    }
    let ghost s1 = s@.subrange(pos1 as int, s@.len() as int);

    // title
    let (title_v, pos2) = match read_line(s, pos1, "title: ") {
        Some(p) => p,
        None => {
            return Err(parse_error(path, "Malformed title"));
        },
    };
    proof {
        lemma_p_line_value_no_nl(s1, "title: "@);
    }
    let ghost s2 = s@.subrange(pos2 as int, s@.len() as int);

    // status
    let (status_v, pos3) = match read_line(s, pos2, "status: ") {
        Some(p) => p,
        None => {
            return Err(parse_error(path, "Malformed status"));
        },
    };
    let status = if str_eq(status_v, "pending") {
        Status::Pending
    } else if str_eq(status_v, "in_progress") {
        Status::InProgress
    } else if str_eq(status_v, "done") {
        Status::Done
    } else {
        return Err(parse_error(path, "Malformed status"));
    };
    let ghost s3 = s@.subrange(pos3 as int, s@.len() as int);

    // created_at / updated_at
    let (created_v, pos4) = match read_line(s, pos3, "created_at: ") {
        Some(p) => p,
        None => {
            return Err(parse_error(path, "Malformed timestamp"));
        },
    };
    let created_at = match read_ts(created_v) {
        Some(t) => t,
        None => {
            return Err(parse_error(path, "Malformed timestamp"));
        },
    };
    let ghost s4 = s@.subrange(pos4 as int, s@.len() as int);
    let (updated_v, pos5) = match read_line(s, pos4, "updated_at: ") {
        Some(p) => p,
        None => {
            return Err(parse_error(path, "Malformed timestamp"));
        },
    };
    let updated_at = match read_ts(updated_v) {
        Some(t) => t,
        None => {
            return Err(parse_error(path, "Malformed timestamp"));
        },
    };
    let ghost s5 = s@.subrange(pos5 as int, s@.len() as int);

    // Optional due line.
    proof {
        lemma_prefix_shift(s@, pos5 as int, "due: "@);
    }
    let (due, pos6): (Option<u32>, usize) = if prefix_at(s, pos5, "due: ") {
        match read_num_line(s, pos5, "due: ") {
            Some((d, np)) => {
                if d > u32::MAX as u64 {
                    return Err(parse_error(path, "Malformed due date"));
                }
                (Some(d as u32), np)
            },
            None => {
                return Err(parse_error(path, "Malformed due date"));
            },
        }
    } else {
        (None, pos5)
    };
    let ghost s6 = s@.subrange(pos6 as int, s@.len() as int);

    // Tags.
    let (tags, pos7) = read_tags(s, pos6);
    let ghost s7 = s@.subrange(pos7 as int, s@.len() as int);

    // Optional estimate line.
    proof {
        lemma_prefix_shift(s@, pos7 as int, "estimate: "@);
    }
    let (estimate, pos8): (Option<String>, usize) = if prefix_at(s, pos7, "estimate: ") {
        match read_line(s, pos7, "estimate: ") {
            Some((e, np)) => {
                proof {
                    lemma_p_line_value_no_nl(s7, "estimate: "@);
                }
                (Some(String::from_str(e)), np)
            },
            None => {
                return Err(parse_error(path, "Malformed estimate"));
            },
        }
    } else {
        (None, pos7)
    };
    let ghost s8 = s@.subrange(pos8 as int, s@.len() as int);

    // Dependencies.
    let (depends_on, pos9) = read_deps(s, pos8);
    let ghost s9 = s@.subrange(pos9 as int, s@.len() as int);

    // Pinned flag.
    let (pin_v, pos10) = match read_line(s, pos9, "pinned: ") {
        Some(p) => p,
        None => {
            return Err(parse_error(path, "Malformed pinned flag"));
        },
    };
    let pinned = if str_eq(pin_v, "true") {
        true
    } else if str_eq(pin_v, "false") {
        false
    } else {
        return Err(parse_error(path, "Malformed pinned flag"));
    };
    let ghost s10 = s@.subrange(pos10 as int, s@.len() as int);

    // Optional pin time.
    proof {
        lemma_prefix_shift(s@, pos10 as int, "pinned_at: "@);
    }
    let (pinned_at, pos11): (Option<Timestamp>, usize) = if prefix_at(s, pos10, "pinned_at: ") {
        match read_line(s, pos10, "pinned_at: ") {
            Some((pv, np)) => match read_ts(pv) {
                Some(pa) => (Some(pa), np),
                None => {
                    return Err(parse_error(path, "Malformed pin time"));
                },
            },
            None => {
                return Err(parse_error(path, "Malformed pin time"));
            },
        }
    } else {
        (None, pos10)
    };
    let ghost s11 = s@.subrange(pos11 as int, s@.len() as int);

    // Schema version.
    let (schema64, pos12) = match read_num_line(s, pos11, "schema_version: ") {
        Some(p) => p,
        None => {
            return Err(parse_error(path, "Malformed schema version"));
        },
    };
    if schema64 > u32::MAX as u64 {
        return Err(parse_error(path, "Malformed schema version"));
    }
    let ghost s12 = s@.subrange(pos12 as int, s@.len() as int);

    // Closing marker.
    proof {
        lemma_prefix_shift(s@, pos12 as int, "---\n"@);
        lemma_keys();
    }
    if !prefix_at(s, pos12, "---\n") {
        return Err(parse_error(path, "Missing closing front matter delimiter"));
    }
    let rest_pos = pos12 + open_len;
    proof {
        assert(s12.subrange("---\n"@.len() as int, s12.len() as int)
            =~= s@.subrange(rest_pos as int, s@.len() as int));
    }

    // The note: strip one separator newline when present.
    let note: String = if rest_pos == n {
        String::new()
    } else if s.get_char(rest_pos) == '\n' {
        let v = s.substring_char(rest_pos + 1, n);
        proof {
            let rest = s@.subrange(rest_pos as int, s@.len() as int);
            assert(rest[0] == '\n');
            assert(v@ =~= rest.subrange(1, rest.len() as int));
        }
        String::from_str(v)
    } else {
        let v = s.substring_char(rest_pos, n);
        proof {
            assert(v@ =~= s@.subrange(rest_pos as int, s@.len() as int));
        }
        String::from_str(v)
    };

    let task = Task {
        id: id64 as u32,
        title: String::from_str(title_v),
        status,
        created_at,
        updated_at,
        due,
        tags,
        estimate,
        depends_on,
        pinned,
        pinned_at,
        schema_version: schema64 as u32,
    };
    proof {
        let dt = decode_tail(s5, id64 as u32, title_v@, status, created_at, updated_at);
        assert(dt == Some((task@, note@))) by {
            assert(task@.tags =~= p_tags(s6).0);
            match dt {
                Some(p) => {
                    assert(p.0 =~= task@);
                },
                None => {},
            }
        };
        assert(decode_spec(s@) == Some((task@, note@)));
        assert(wf_task(task@));
    }
    Ok((task, note))
}

} // verus!
