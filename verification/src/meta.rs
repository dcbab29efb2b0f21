//! The persisted id allocator: a monotonic counter with a textual form.

use vstd::prelude::*;

use crate::numtext::{dec_digits, spec_parse_u64, parse_u64_range, push_dec, prefix_at,
    has_prefix_at, spec_find_char, find_char, lemma_parse_dec_digits, lemma_find_char_props,
    lemma_dec_digits_val, is_digit};

verus! {

broadcast use vstd::string::group_string_axioms;

/// The id allocator state. Ids are handed out in order and never reused.
#[derive(Debug, Clone, Copy, PartialEq, Eq, Structural)]
pub struct Meta {
    pub next_id: u32,
}

impl Default for Meta {
    /// A fresh allocator starts at id 1.
    fn default() -> (r: Self)
        ensures
            r.next_id == 1,
    {
        Meta { next_id: 1 }
    }
}

/// The textual form of the allocator state.
pub open spec fn meta_chars(next_id: u32) -> Seq<char> {
    "{\n  \"next_id\": "@ + dec_digits(next_id as nat) + "\n}"@
}

/// What parsing the allocator text means: the exact textual form, with an
/// optional trailing newline.
pub open spec fn spec_parse_meta(s: Seq<char>) -> Option<u32> {
    if has_prefix_at(s, 0, "{\n  \"next_id\": "@) {
        let s2 = s.subrange("{\n  \"next_id\": "@.len() as int, s.len() as int);
        match spec_find_char(s2, 0, '\n') {
            Some(k) => {
                let tail = s2.subrange(k, s2.len() as int);
                if tail == "\n}"@ || tail == "\n}\n"@ {
                    match spec_parse_u64(s2.subrange(0, k)) {
                        Some(v) => if v <= u32::MAX {
                            Some(v as u32)
                        } else {
                            None
                        },
                        None => None,
                    }
                } else {
                    None
                }
            },
            None => None,
        }
    } else {
        None
    }
}

impl Meta {
    /// Allocate the next id: return the current value, then step and keep
    /// the counter.
    pub fn allocate_id(&mut self) -> (id: u32)
        requires
            old(self).next_id < u32::MAX,
        ensures
            id == old(self).next_id,
            final(self).next_id == old(self).next_id + 1,
    {
        let id = self.next_id;
        self.next_id = self.next_id + 1;
        id
    }

    /// Render the allocator state in its textual form.
    pub fn to_text(&self) -> (r: String)
        ensures
            r@ == meta_chars(self.next_id),
    {
        let mut out = String::new();
        out.append("{\n  \"next_id\": ");
        push_dec(&mut out, self.next_id as u64);
        out.append("\n}");
        proof {
            assert(out@ =~= meta_chars(self.next_id));
        }
        out
    }

    /// Parse the allocator state back from its textual form.
    pub fn from_text(s: &str) -> (r: Option<Meta>)
        ensures
            match spec_parse_meta(s@) {
                Some(v) => r == Some(Meta { next_id: v }),
                None => r is None,
            },
    {
        proof {
            assert(s@.subrange(0, s@.len() as int) =~= s@);
        }
        if !prefix_at(s, 0, "{\n  \"next_id\": ") {
            return None;
        }
        let klen = "{\n  \"next_id\": ".unicode_len();
        let n = s.unicode_len();
        let ghost s2 = s@.subrange("{\n  \"next_id\": "@.len() as int, s@.len() as int);
        proof {
            crate::markdown::lemma_find_suffix(s@, klen as int, '\n');
        }
        let k = match find_char(s, klen, '\n') {
            Some(e) => e,
            None => {
                return None;
            },
        };
        let tail = s.substring_char(k, n);
        proof {
            assert(tail@ =~= s2.subrange(k - klen, s2.len() as int));
            reveal_strlit("\n}");
            reveal_strlit("\n}\n");
        }
        let tail_ok = crate::numtext::str_eq(tail, "\n}") || crate::numtext::str_eq(tail, "\n}\n");
        if !tail_ok {
            return None;
        }
        proof {
            assert(s2.subrange(0, k - klen) =~= s@.subrange(klen as int, k as int));
        }
        match parse_u64_range(s, klen, k) {
            Some(v) => {
                if v <= u32::MAX as u64 {
                    Some(Meta { next_id: v as u32 })
                } else {
                    None
                }
            },
            None => None,
        }
    }
}

/// The allocator text reads back as the allocator state.
pub proof fn lemma_meta_round_trip(next_id: u32)
    ensures
        spec_parse_meta(meta_chars(next_id)) == Some(next_id),
{
    let key = "{\n  \"next_id\": "@;
    let s = meta_chars(next_id);
    lemma_dec_digits_val(next_id as nat);
    reveal_strlit("{\n  \"next_id\": ");
    reveal_strlit("\n}");
    reveal_strlit("\n}\n");
    assert(s.subrange(0, key.len() as int) =~= key);
    assert(has_prefix_at(s, 0, key));
    let s2 = s.subrange(key.len() as int, s.len() as int);
    let d = dec_digits(next_id as nat);
    assert(s2 =~= d + "\n}"@);
    assert("\n}"@[0] == '\n' && "\n}"@[1] == '}');
    assert(s2[d.len() as int] == '\n');
    lemma_find_char_props(s2, 0, '\n');
    match spec_find_char(s2, 0, '\n') {
        Some(j) => {
            if j < d.len() {
                assert(s2[j] == d[j] && is_digit(d[j]));
            }
            assert(j == d.len());
            assert(s2.subrange(j, s2.len() as int) =~= "\n}"@);
            assert(s2.subrange(0, j) =~= d);
            lemma_parse_dec_digits(next_id as u64);
        },
        None => {
            assert(s2[d.len() as int] == '\n');
        },
    }
}

} // verus!
