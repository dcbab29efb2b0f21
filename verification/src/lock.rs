//! The advisory lock discipline: marker content, stale-lock detection, and
//! the retry schedule. The file and process operations themselves are the
//! caller's concern; this module decides what to do at each step.

use vstd::prelude::*;

use crate::dates::trim;
use crate::numtext::{dec_digits, spec_parse_u64, parse_u64_range, push_dec};

verus! {

broadcast use vstd::string::group_string_axioms;

/// How long to keep retrying a contended lock, in milliseconds.
pub const LOCK_TIMEOUT_MS: u64 = 5000;

/// How long to wait between attempts, in milliseconds.
pub const LOCK_RETRY_INTERVAL_MS: u64 = 100;

/// What to do after one acquisition attempt.
#[derive(Debug, Clone, Copy, PartialEq, Eq, Structural)]
pub enum LockStep {
    /// The lock is held: write the marker and proceed.
    Acquired,
    /// Contended: sleep this many milliseconds and try again.
    Retry(u64),
    /// Contended past the timeout: fail with a lock error.
    TimedOut,
}

/// The marker content a holder writes: its process id in decimal.
pub fn marker_content(pid: u32) -> (r: String)
    ensures
        r@ == dec_digits(pid as nat),
{
    crate::numtext::dec_string(pid as u64)
}

/// What a marker names: the process id, if the trimmed content is a decimal
/// number in range.
pub open spec fn spec_parse_pid(s: Seq<char>) -> Option<u32> {
    match spec_parse_u64(trim(s)) {
        Some(v) => if v <= u32::MAX {
            Some(v as u32)
        } else {
            None
        },
        None => None,
    }
}

/// Read the process id a lock marker names.
pub fn parse_pid(content: &str) -> (r: Option<u32>)
    ensures
        r == spec_parse_pid(content@),
{
    let t = crate::dates::trim_str(content);
    let n = t.unicode_len();
    proof {
        assert(t@.subrange(0, t@.len() as int) =~= t@);
    }
    match parse_u64_range(t, 0, n) {
        Some(v) => {
            if v <= u32::MAX as u64 {
                Some(v as u32)
            } else {
                None
            }
        },
        None => None,
    }
}

/// A marker written for a process id reads back as that id: stale-lock
/// detection sees exactly the holder the marker names.
pub proof fn lemma_marker_round_trip(pid: u32)
    ensures
        spec_parse_pid(dec_digits(pid as nat)) == Some(pid),
{
    crate::numtext::lemma_dec_digits_val(pid as nat);
    let d = dec_digits(pid as nat);
    assert(trim(d) == d) by {
        assert(crate::numtext::is_digit(d[0]) && !crate::dates::is_ws(d[0]));
        assert(crate::numtext::is_digit(d[d.len() - 1]) && !crate::dates::is_ws(d.last()));
    };
    crate::numtext::lemma_parse_dec_digits(pid as u64);
}

/// Whether a pre-acquisition marker should be removed: only a marker that
/// names a process id whose process no longer runs is stale. A marker with
/// unreadable content is left alone.
pub fn stale_should_remove(named_pid: Option<u32>, process_alive: bool) -> (r: bool)
    ensures
        r == (named_pid is Some && !process_alive),
{
    match named_pid {
        Some(_) => !process_alive,
        None => false,
    }
}

/// Decide the next step after an acquisition attempt: success acquires,
/// contention within the window retries on the fixed interval, and
/// contention past the timeout fails.
pub fn acquire_step(elapsed_ms: u64, attempt_succeeded: bool) -> (r: LockStep)
    ensures
        attempt_succeeded ==> r == LockStep::Acquired,
        !attempt_succeeded && elapsed_ms < LOCK_TIMEOUT_MS
            ==> r == LockStep::Retry(LOCK_RETRY_INTERVAL_MS),
        !attempt_succeeded && elapsed_ms >= LOCK_TIMEOUT_MS ==> r == LockStep::TimedOut,
{
    if attempt_succeeded {
        LockStep::Acquired
    } else if elapsed_ms < LOCK_TIMEOUT_MS {
        LockStep::Retry(LOCK_RETRY_INTERVAL_MS)
    } else {
        LockStep::TimedOut
    }
}

} // verus!
