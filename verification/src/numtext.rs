//! Decimal rendering and parsing over character sequences, plus small
//! string-scanning helpers shared by the record codec and the date parser.

use vstd::prelude::*;

verus! {

broadcast use vstd::string::group_string_axioms;

/// The value of a decimal digit character.
pub open spec fn digit_val(c: char) -> int {
    c as int - '0' as int
}

/// Whether `c` is a decimal digit.
pub open spec fn is_digit(c: char) -> bool {
    '0' <= c && c <= '9'
}

/// The digit character for a value below ten.
pub open spec fn digit_char(d: int) -> char {
    if d == 0 { '0' }
    else if d == 1 { '1' }
    else if d == 2 { '2' }
    else if d == 3 { '3' }
    else if d == 4 { '4' }
    else if d == 5 { '5' }
    else if d == 6 { '6' }
    else if d == 7 { '7' }
    else if d == 8 { '8' }
    else { '9' }
}

/// The canonical decimal rendering of `n`, most significant digit first.
pub open spec fn dec_digits(n: nat) -> Seq<char>
    decreases n,
{
    if n < 10 {
        seq![digit_char(n as int)]
    } else {
        dec_digits(n / 10) + seq![digit_char((n % 10) as int)]
    }
}

/// Whether every character of `s` is a decimal digit.
pub open spec fn all_digits(s: Seq<char>) -> bool {
    forall|i: int| 0 <= i < s.len() ==> is_digit(#[trigger] s[i])
}

/// The numeric value of a digit sequence, most significant digit first.
pub open spec fn digits_val(s: Seq<char>) -> nat
    decreases s.len(),
{
    if s.len() == 0 {
        0
    } else {
        digits_val(s.drop_last()) * 10 + (if is_digit(s.last()) { digit_val(s.last()) } else { 0 }) as nat
    }
}

/// What parsing an unsigned decimal means: at least one digit, nothing but
/// digits, and a value that fits in `u64`.
pub open spec fn spec_parse_u64(s: Seq<char>) -> Option<u64> {
    if s.len() >= 1 && all_digits(s) && digits_val(s) <= u64::MAX {
        Some(digits_val(s) as u64)
    } else {
        None
    }
}

/// A digit character is a digit and evaluates to the digit it renders.
pub proof fn lemma_digit_char(d: int)
    requires
        0 <= d < 10,
    ensures
        is_digit(digit_char(d)),
        digit_val(digit_char(d)) == d,
{
}

/// The canonical rendering evaluates back to the rendered number.
pub proof fn lemma_dec_digits_val(n: nat)
    ensures
        all_digits(dec_digits(n)),
        digits_val(dec_digits(n)) == n,
        dec_digits(n).len() >= 1,
    decreases n,
{
    if n < 10 {
        lemma_digit_char(n as int);
        let one = dec_digits(n);
        assert(one =~= seq![digit_char(n as int)]);
        assert(one.last() == digit_char(n as int));
        assert(one.drop_last() =~= Seq::<char>::empty());
        assert(digits_val(one.drop_last()) == 0);
        assert(digits_val(one) == n);
    } else {
        lemma_dec_digits_val(n / 10);
        lemma_digit_char((n % 10) as int);
        let d = dec_digits(n / 10);
        let whole = dec_digits(n);
        assert(whole =~= d + seq![digit_char((n % 10) as int)]);
        assert(whole.drop_last() =~= d);
        assert(whole.last() == digit_char((n % 10) as int));
        assert(digits_val(whole) == digits_val(d) * 10 + (n % 10));
    }
}

/// Parsing the canonical rendering of `n` gives back `n`.
pub proof fn lemma_parse_dec_digits(n: u64)
    ensures
        spec_parse_u64(dec_digits(n as nat)) == Some(n),
{
    lemma_dec_digits_val(n as nat);
}

/// Ten to the `n`.
pub open spec fn pow10(n: nat) -> nat
    decreases n,
{
    if n == 0 { 1 } else { 10 * pow10((n - 1) as nat) }
}

/// A digit sequence of length `n` evaluates below ten to the `n`.
pub proof fn lemma_digits_val_bound(s: Seq<char>)
    ensures
        digits_val(s) < pow10(s.len()),
    decreases s.len(),
{
    if s.len() > 0 {
        lemma_digits_val_bound(s.drop_last());
    }
}

/// Check that characters `from..to` of `s` are all decimal digits.
pub fn all_digits_range(s: &str, from: usize, to: usize) -> (r: bool)
    requires
        from <= to <= s@.len(),
    ensures
        r == all_digits(s@.subrange(from as int, to as int)),
{
    let mut i: usize = from;
    while i < to
        invariant
            from <= i <= to <= s@.len(),
            forall|k: int| from <= k < i ==> is_digit(#[trigger] s@[k]),
        decreases to - i,
    {
        let c = s.get_char(i);
        if !(c >= '0' && c <= '9') {
            proof {
                assert(s@.subrange(from as int, to as int)[i - from] == s@[i as int]);
                assert(!is_digit(s@.subrange(from as int, to as int)[i - from]));
            }
            return false;
        }
        i += 1;
    }
    proof {
        let sub = s@.subrange(from as int, to as int);
        assert(forall|k: int| 0 <= k < sub.len() ==> is_digit(#[trigger] sub[k])) by {
            assert(forall|k: int| 0 <= k < sub.len() ==> sub[k] == s@[from + k]);
        };
    }
    true
}

/// Check that characters `from..to` of `s` are all decimal digits in the
/// lower-cased view; on success, lower-casing left that range unchanged.
pub fn lower_digits_range(s: &str, from: usize, to: usize) -> (r: bool)
    requires
        from <= to <= s@.len(),
    ensures
        r == all_digits(lower_seq(s@).subrange(from as int, to as int)),
        r ==> lower_seq(s@).subrange(from as int, to as int)
            == s@.subrange(from as int, to as int),
{
    let mut i: usize = from;
    while i < to
        invariant
            from <= i <= to <= s@.len(),
            forall|k: int| from <= k < i ==> is_digit(#[trigger] s@[k]) && lower_seq(s@)[k] == s@[k],
        decreases to - i,
    {
        let c = s.get_char(i);
        proof {
            assert(lower_seq(s@)[i as int] == lower_char(s@[i as int]));
        }
        if !(c >= '0' && c <= '9') {
            proof {
                let lt = lower_seq(s@);
                assert(!is_digit(lower_char(s@[i as int])));
                assert(lt.subrange(from as int, to as int)[i - from] == lt[i as int]);
                assert(!is_digit(lt.subrange(from as int, to as int)[i - from]));
            }
            return false;
        }
        i += 1;
    }
    proof {
        let lt = lower_seq(s@);
        let sub = lt.subrange(from as int, to as int);
        assert(forall|k: int| 0 <= k < sub.len() ==> is_digit(#[trigger] sub[k])) by {
            assert(forall|k: int| 0 <= k < sub.len() ==> sub[k] == lt[from + k]);
        };
        assert(sub =~= s@.subrange(from as int, to as int)) by {
            assert(forall|k: int| 0 <= k < sub.len() ==> sub[k] == lt[from + k]
                && #[trigger] s@.subrange(from as int, to as int)[k] == s@[from + k]);
        };
    }
    true
}

/// Whether `pat` occurs in `s` as a contiguous block, ignoring ASCII case.
pub open spec fn contains_lower(s: Seq<char>, pat: Seq<char>) -> bool {
    exists|i: int| 0 <= i <= s.len() - pat.len()
        && #[trigger] lower_seq(s).subrange(i, i + pat.len()) == lower_seq(pat)
}

/// Search `s` for `pat`, ignoring ASCII case.
pub fn contains_ignore_ascii(s: &str, pat: &str) -> (r: bool)
    ensures
        r == contains_lower(s@, pat@),
{
    let n = s.unicode_len();
    let m = pat.unicode_len();
    if m > n {
        return false;
    }
    let mut i: usize = 0;
    while i <= n - m
        invariant
            0 <= i <= n - m + 1,
            m <= n == s@.len(),
            m == pat@.len(),
            forall|ii: int| 0 <= ii < i
                ==> #[trigger] lower_seq(s@).subrange(ii, ii + pat@.len())
                    != lower_seq(pat@),
        decreases n + 1 - i,
    {
        let mut j: usize = 0;
        let mut hit = true;
        while j < m
            invariant_except_break
                0 <= j <= m == pat@.len(),
                i + m <= n == s@.len(),
                hit,
                forall|k: int| 0 <= k < j
                    ==> #[trigger] lower_seq(s@)[i + k] == lower_seq(pat@)[k],
            ensures
                0 <= j <= m,
                hit ==> forall|k: int| 0 <= k < m
                    ==> #[trigger] lower_seq(s@)[i + k] == lower_seq(pat@)[k],
                !hit ==> exists|k: int| 0 <= k < m
                    && #[trigger] lower_seq(s@)[i + k] != lower_seq(pat@)[k],
            decreases m - j,
        {
            let ca = s.get_char(i + j);
            let cb = pat.get_char(j);
            let la = if ca >= 'A' && ca <= 'Z' { ((ca as u8) + 32) as char } else { ca };
            let lb = if cb >= 'A' && cb <= 'Z' { ((cb as u8) + 32) as char } else { cb };
            proof {
                assert(lower_seq(s@)[i + j] == lower_char(s@[i + j]));
                assert(lower_seq(pat@)[j as int] == lower_char(pat@[j as int]));
            }
            if la != lb {
                hit = false;
                proof {
                    assert(lower_seq(s@)[i + j] != lower_seq(pat@)[j as int]);
                }
                break;
            }
            j += 1;
        }
        if hit {
            proof {
                assert forall|k: int| 0 <= k < pat@.len()
                    implies lower_seq(s@).subrange(i as int, i + pat@.len())[k]
                        == lower_seq(pat@)[k] by {
                    assert(lower_seq(s@)[i + k] == lower_seq(pat@)[k]);
                };
                assert(lower_seq(s@).subrange(i as int, i + pat@.len())
                    =~= lower_seq(pat@));
            }
            return true;
        }
        proof {
            let k = choose|k: int| 0 <= k < pat@.len()
                && #[trigger] lower_seq(s@)[i + k] != lower_seq(pat@)[k];
            assert(lower_seq(s@).subrange(i as int, i + pat@.len())[k]
                != lower_seq(pat@)[k]);
        }
        i += 1;
    }
    proof {
        if contains_lower(s@, pat@) {
            let ii = choose|ii: int| 0 <= ii <= s@.len() - pat@.len()
                && #[trigger] lower_seq(s@).subrange(ii, ii + pat@.len())
                    == lower_seq(pat@);
        }
    }
    false
}

/// Lower-casing leaves a sequence without ASCII capitals unchanged.
pub proof fn lemma_lower_seq_id(s: Seq<char>)
    requires
        forall|i: int| 0 <= i < s.len() ==> !('A' <= #[trigger] s[i] && s[i] <= 'Z'),
    ensures
        lower_seq(s) == s,
{
    assert(lower_seq(s) =~= s);
}

/// A digit-sequence prefix never exceeds the whole sequence's value.
pub proof fn lemma_digits_val_prefix(s: Seq<char>, i: int)
    requires
        0 <= i <= s.len(),
    ensures
        digits_val(s.subrange(0, i)) <= digits_val(s),
    decreases s.len() - i,
{
    if i == s.len() {
        assert(s.subrange(0, i) =~= s);
    } else {
        let t = s.subrange(0, i + 1);
        assert(t.drop_last() =~= s.subrange(0, i));
        assert(digits_val(s.subrange(0, i)) <= digits_val(t));
        lemma_digits_val_prefix(s, i + 1);
        assert(s.subrange(0, i + 1) =~= s.subrange(0, i + 1));
    }
}

/// Append one digit character to `out`.
fn push_digit(out: &mut String, d: u64)
    requires
        d < 10,
    ensures
        final(out)@ == old(out)@ + seq![digit_char(d as int)],
{
    proof {
        reveal_strlit("0");
        reveal_strlit("1");
        reveal_strlit("2");
        reveal_strlit("3");
        reveal_strlit("4");
        reveal_strlit("5");
        reveal_strlit("6");
        reveal_strlit("7");
        reveal_strlit("8");
        reveal_strlit("9");
    }
    let lit: &str = if d == 0 { "0" }
    else if d == 1 { "1" }
    else if d == 2 { "2" }
    else if d == 3 { "3" }
    else if d == 4 { "4" }
    else if d == 5 { "5" }
    else if d == 6 { "6" }
    else if d == 7 { "7" }
    else { "9" };
    let lit: &str = if d == 8 { "8" } else { lit };
    out.append(lit);
    proof {
        assert(lit@ =~= seq![digit_char(d as int)]);
    }
}

/// Append the canonical decimal rendering of `n` to `out`.
pub fn push_dec(out: &mut String, n: u64)
    ensures
        final(out)@ == old(out)@ + dec_digits(n as nat),
    decreases n,
{
    if n >= 10 {
        push_dec(out, n / 10);
        push_digit(out, n % 10);
        proof {
            assert(out@ =~= old(out)@ + dec_digits(n as nat));
        }
    } else {
        push_digit(out, n);
    }
}

/// The canonical decimal rendering of `n` as a fresh string.
pub fn dec_string(n: u64) -> (r: String)
    ensures
        r@ == dec_digits(n as nat),
{
    let mut s = String::new();
    push_dec(&mut s, n);
    proof {
        assert(s@ =~= dec_digits(n as nat));
    }
    s
}

/// Parse the characters `from..to` of `s` as an unsigned decimal.
pub fn parse_u64_range(s: &str, from: usize, to: usize) -> (r: Option<u64>)
    requires
        from <= to <= s@.len(),
    ensures
        r == spec_parse_u64(s@.subrange(from as int, to as int)),
{
    let ghost sub = s@.subrange(from as int, to as int);
    if from == to {
        return None;
    }
    let mut acc: u64 = 0;
    let mut i: usize = from;
    while i < to
        invariant
            from <= i <= to <= s@.len(),
            to > from,
            sub == s@.subrange(from as int, to as int),
            all_digits(sub.subrange(0, i - from)),
            acc == digits_val(sub.subrange(0, i - from)),
        decreases to - i,
    {
        let c = s.get_char(i);
        proof {
            assert(sub[i - from] == s@[i as int]);
        }
        if !(c >= '0' && c <= '9') {
            proof {
                assert(!is_digit(sub[i - from]));
            }
            return None;
        }
        let d: u64 = (c as u32 as u64) - ('0' as u32 as u64);
        proof {
            assert(d == digit_val(sub[i - from]));
            assert(sub.subrange(0, i + 1 - from).drop_last() =~= sub.subrange(0, i - from));
        }
        if acc > (u64::MAX - d) / 10 {
            proof {
                let pre = sub.subrange(0, i + 1 - from);
                assert(digits_val(pre) == acc * 10 + d);
                assert(digits_val(pre) > u64::MAX);
                lemma_digits_val_prefix(sub, i + 1 - from);
            }
            return None;
        }
        acc = acc * 10 + d;
        i += 1;
    }
    proof {
        assert(sub.subrange(0, to - from) =~= sub);
    }
    Some(acc)
}

/// The first occurrence of `c` in `s` at or after `from`.
pub open spec fn spec_find_char(s: Seq<char>, from: int, c: char) -> Option<int>
    decreases s.len() - from,
{
    if from < 0 || from >= s.len() {
        None
    } else if s[from] == c {
        Some(from)
    } else {
        spec_find_char(s, from + 1, c)
    }
}

/// What a found position means: `c` occurs there and nowhere earlier.
pub proof fn lemma_find_char_props(s: Seq<char>, from: int, c: char)
    requires
        0 <= from <= s.len(),
    ensures
        match spec_find_char(s, from, c) {
            Some(j) => from <= j < s.len() && s[j] == c
                && (forall|k: int| from <= k < j ==> s[k] != c),
            None => forall|k: int| from <= k < s.len() ==> s[k] != c,
        },
    decreases s.len() - from,
{
    if from < s.len() && s[from] != c {
        lemma_find_char_props(s, from + 1, c);
    }
}

/// Find the first occurrence of `c` in `s` at or after `from`.
pub fn find_char(s: &str, from: usize, c: char) -> (r: Option<usize>)
    requires
        from <= s@.len(),
    ensures
        match r {
            Some(j) => from <= j < s@.len() && Some(j as int) == spec_find_char(s@, from as int, c),
            None => spec_find_char(s@, from as int, c) is None,
        },
{
    let n = s.unicode_len();
    let mut i: usize = from;
    while i < n
        invariant
            from <= i <= n == s@.len(),
            spec_find_char(s@, from as int, c) == spec_find_char(s@, i as int, c),
        decreases n - i,
    {
        if s.get_char(i) == c {
            return Some(i);
        }
        i += 1;
    }
    None
}

/// Whether `p` occurs in `s` as a contiguous block starting at `i`.
pub open spec fn has_prefix_at(s: Seq<char>, i: int, p: Seq<char>) -> bool {
    0 <= i && i + p.len() <= s.len() && s.subrange(i, i + p.len()) == p
}

/// Check whether `p` occurs in `s` starting at character `i`.
pub fn prefix_at(s: &str, i: usize, p: &str) -> (r: bool)
    requires
        i <= s@.len(),
    ensures
        r == has_prefix_at(s@, i as int, p@),
{
    let n = s.unicode_len();
    let m = p.unicode_len();
    if m > n - i {
        return false;
    }
    let mut j: usize = 0;
    while j < m
        invariant
            0 <= j <= m == p@.len(),
            i + m <= n == s@.len(),
            forall|k: int| 0 <= k < j ==> s@[i + k] == p@[k],
        decreases m - j,
    {
        if s.get_char(i + j) != p.get_char(j) {
            proof {
                assert(s@.subrange(i as int, i + p@.len())[j as int] != p@[j as int]);
            }
            return false;
        }
        j += 1;
    }
    proof {
        assert(s@.subrange(i as int, i + p@.len()) =~= p@);
    }
    true
}

/// Lower-case an ASCII letter; all other characters are unchanged.
pub open spec fn lower_char(c: char) -> char {
    if 'A' <= c && c <= 'Z' {
        ((c as u8) + 32) as char
    } else {
        c
    }
}

/// The ASCII-lower-cased image of a character sequence.
pub open spec fn lower_seq(s: Seq<char>) -> Seq<char> {
    s.map_values(|c: char| lower_char(c))
}

/// Compare two strings character for character.
pub fn str_eq(a: &str, b: &str) -> (r: bool)
    ensures
        r == (a@ == b@),
{
    let n = a.unicode_len();
    let m = b.unicode_len();
    if n != m {
        return false;
    }
    let mut i: usize = 0;
    while i < n
        invariant
            0 <= i <= n == a@.len() == b@.len(),
            forall|k: int| 0 <= k < i ==> a@[k] == b@[k],
        decreases n - i,
    {
        if a.get_char(i) != b.get_char(i) {
            return false;
        }
        i += 1;
    }
    proof {
        assert(a@ =~= b@);
    }
    true
}

/// Compare two strings ignoring ASCII case.
pub fn eq_ignore_ascii(a: &str, b: &str) -> (r: bool)
    ensures
        r == (lower_seq(a@) == lower_seq(b@)),
{
    let n = a.unicode_len();
    let m = b.unicode_len();
    if n != m {
        proof {
            assert(lower_seq(a@).len() != lower_seq(b@).len());
        }
        return false;
    }
    let mut i: usize = 0;
    while i < n
        invariant
            0 <= i <= n == a@.len() == b@.len(),
            forall|k: int| 0 <= k < i ==> lower_seq(a@)[k] == lower_seq(b@)[k],
        decreases n - i,
    {
        let ca = a.get_char(i);
        let cb = b.get_char(i);
        let la = if ca >= 'A' && ca <= 'Z' { ((ca as u8) + 32) as char } else { ca };
        let lb = if cb >= 'A' && cb <= 'Z' { ((cb as u8) + 32) as char } else { cb };
        if la != lb {
            proof {
                assert(lower_seq(a@)[i as int] != lower_seq(b@)[i as int]);
            }
            return false;
        }
        i += 1;
    }
    proof {
        assert(lower_seq(a@) =~= lower_seq(b@));
    }
    true
}

} // verus!
