//! The HTTP proxy side: Basic proxy authentication with a base64 decoder,
//! CONNECT target and absolute-URL parsing, and the transformation applied
//! to a request before it is forwarded upstream. Pure functions from bytes
//! to bytes; the sockets around them are the caller's.

use vstd::prelude::*;
use crate::bytes::{utf8_of, spec_lower, spec_starts_with, spec_starts_with_lower, string_bytes};
use crate::utils::{all_digits, digits_value, parse_u16_dec};

verus! {

/// Upstream dial budget, in milliseconds.
pub const HTTP_CONNECT_TIMEOUT_MS: u64 = 15_000;

// ── base64 ──────────────────────────────────────────────────────────────

/// The value of one byte in the standard base64 alphabet, or -1.
pub open spec fn b64_val(b: u8) -> int {
    if 65 <= b <= 90 {
        b - 65
    } else if 97 <= b <= 122 {
        b - 97 + 26
    } else if 48 <= b <= 57 {
        b - 48 + 52
    } else if b == 43 {
        62
    } else if b == 47 {
        63
    } else {
        -1
    }
}

/// The bit-accumulator state after decoding a run of base64 bytes: the
/// accumulator, how many bits it holds, and the bytes emitted so far.
/// `None` once a byte outside the alphabet is hit.
pub open spec fn b64_state(s: Seq<u8>) -> Option<(u32, u32, Seq<u8>)>
    decreases s.len(),
{
    if s.len() == 0 {
        Some((0u32, 0u32, Seq::empty()))
    } else {
        match b64_state(s.drop_last()) {
            None => None,
            Some((buf, bits, out)) => {
                let v = b64_val(s.last());
                if v < 0 {
                    None
                } else {
                    let buf2 = (buf << 6) | (v as u32);
                    if bits + 6 >= 8 {
                        Some(
                            (
                                buf2,
                                (bits + 6 - 8) as u32,
                                out.push((buf2 >> (bits + 6 - 8) as u32) as u8),
                            ),
                        )
                    } else {
                        Some((buf2, (bits + 6) as u32, out))
                    }
                }
            },
        }
    }
}

/// ASCII whitespace, as trimmed from header values.
pub open spec fn is_space(b: u8) -> bool {
    b == 32 || b == 9 || b == 10 || b == 11 || b == 12 || b == 13
}

/// The longest whitespace prefix of `s`.
pub open spec fn lead_spaces(s: Seq<u8>) -> int
    decreases s.len(),
{
    if s.len() == 0 || !is_space(s[0]) {
        0
    } else {
        1 + lead_spaces(s.drop_first())
    }
}

/// The longest whitespace suffix of `s`.
pub open spec fn trail_spaces(s: Seq<u8>) -> int
    decreases s.len(),
{
    if s.len() == 0 || !is_space(s.last()) {
        0
    } else {
        1 + trail_spaces(s.drop_last())
    }
}

/// `s` without leading and trailing ASCII whitespace.
pub open spec fn spec_trim(s: Seq<u8>) -> Seq<u8> {
    let t = s.skip(lead_spaces(s));
    t.take(t.len() - trail_spaces(t))
}

/// The trailing run of `=` padding bytes.
pub open spec fn trail_eq(s: Seq<u8>) -> int
    decreases s.len(),
{
    if s.len() == 0 || s.last() != 61 {
        0
    } else {
        1 + trail_eq(s.drop_last())
    }
}

/// What `decode_base64` yields: the input is trimmed of whitespace, its
/// `=` padding stripped, and the remaining bytes are decoded 6 bits at a
/// time; any byte outside the alphabet rejects the input.
pub open spec fn spec_decode_base64(input: Seq<u8>) -> Option<Seq<u8>> {
    let t = spec_trim(input);
    let stripped = t.take(t.len() - trail_eq(t));
    match b64_state(stripped) {
        None => None,
        Some((buf, bits, out)) => Some(out),
    }
}

/// Decode standard base64 (trailing `=` ignored); `None` exactly when a
/// non-alphabet byte appears in the trimmed input.
pub fn decode_base64(input: &[u8]) -> (r: Option<Vec<u8>>)
    ensures
        r.is_some() <==> spec_decode_base64(input@).is_some(),
        r matches Some(v) ==> Some(v@) == spec_decode_base64(input@),
{
    // Trim ASCII whitespace.
    proof {
        lemma_lead_spaces_bound(input@);
    }
    let mut start: usize = 0;
    while start < input.len() && (input[start] == 32 || input[start] == 9 || input[start] == 10
        || input[start] == 11 || input[start] == 12 || input[start] == 13)
        invariant
            start <= input@.len(),
            lead_spaces(input@) >= start,
            forall|k: int| 0 <= k < start ==> is_space(#[trigger] input@[k]),
        decreases input@.len() - start,
    {
        proof {
            lemma_lead_spaces_step(input@, start as int);
        }
        start += 1;
    }
    proof {
        lemma_lead_spaces_bound(input@);
        if start < input@.len() {
            lemma_lead_spaces_stop(input@, start as int);
        }
        assert(lead_spaces(input@) == start);
    }
    let ghost t0 = input@.skip(start as int);
    proof {
        lemma_trail_spaces_bound(t0);
    }
    let mut end: usize = input.len();
    while end > start && (input[end - 1] == 32 || input[end - 1] == 9 || input[end - 1] == 10
        || input[end - 1] == 11 || input[end - 1] == 12 || input[end - 1] == 13)
        invariant
            start <= end <= input@.len(),
            t0 == input@.skip(start as int),
            trail_spaces(t0) >= input@.len() - end,
            forall|k: int| end <= k < input@.len() ==> is_space(#[trigger] input@[k]),
        decreases end,
    {
        proof {
            let k = input@.len() - end;
            assert(t0.len() == input@.len() - start);
            assert(t0[t0.len() - k - 1] == input@[start + (t0.len() - k - 1)]);
            assert(start + (t0.len() - k - 1) == end - 1);
            lemma_trail_spaces_step(t0, k);
        }
        end -= 1;
    }
    proof {
        lemma_trail_spaces_bound(t0);
        if end > start {
            let k = input@.len() - end;
            assert(t0.len() == input@.len() - start);
            assert(t0[t0.len() - k - 1] == input@[start + (t0.len() - k - 1)]);
            assert(start + (t0.len() - k - 1) == end - 1);
            lemma_trail_spaces_stop(t0, k);
        }
        assert(trail_spaces(t0) == input@.len() - end);
        assert(t0.take(t0.len() - trail_spaces(t0)) =~= input@.subrange(start as int, end as int));
    }
    // Strip `=` padding.
    let ghost trimmed = input@.subrange(start as int, end as int);
    proof {
        lemma_trail_eq_bound(trimmed);
    }
    let mut end2: usize = end;
    while end2 > start && input[end2 - 1] == 61
        invariant
            start <= end2 <= end <= input@.len(),
            trimmed == input@.subrange(start as int, end as int),
            trail_eq(trimmed) >= end - end2,
            forall|k: int| end2 <= k < end ==> input@[k] == 61,
        decreases end2,
    {
        proof {
            let k = end - end2;
            assert(trimmed.len() == end - start);
            assert(trimmed[trimmed.len() - k - 1] == input@[start + (trimmed.len() - k - 1)]);
            assert(start + (trimmed.len() - k - 1) == end2 - 1);
            lemma_trail_eq_step(trimmed, k);
        }
        end2 -= 1;
    }
    proof {
        lemma_trail_eq_bound(trimmed);
        if end2 > start {
            let k = end - end2;
            assert(trimmed.len() == end - start);
            assert(trimmed[trimmed.len() - k - 1] == input@[start + (trimmed.len() - k - 1)]);
            assert(start + (trimmed.len() - k - 1) == end2 - 1);
            lemma_trail_eq_stop(trimmed, k);
        }
        assert(trail_eq(trimmed) == end - end2);
        assert(trimmed.take(trimmed.len() - trail_eq(trimmed)) =~= input@.subrange(
            start as int,
            end2 as int,
        ));
    }
    let ghost stripped = input@.subrange(start as int, end2 as int);
    // Decode 6 bits at a time.
    let mut out: Vec<u8> = Vec::new();
    let mut buf: u32 = 0;
    let mut bits: u32 = 0;
    let mut i: usize = start;
    proof {
        assert(stripped.subrange(0, 0) =~= Seq::<u8>::empty());
    }
    while i < end2
        invariant
            start <= i <= end2 <= input@.len(),
            stripped == input@.subrange(start as int, end2 as int),
            ({
                let t = spec_trim(input@);
                stripped == t.take(t.len() - trail_eq(t))
            }),
            b64_state(stripped.subrange(0, i - start)) == Some((buf, bits, out@)),
            bits < 8,
        decreases end2 - i,
    {
        let b = input[i];
        let v: i32 = if 65 <= b && b <= 90 {
            (b - 65) as i32
        } else if 97 <= b && b <= 122 {
            (b - 97) as i32 + 26
        } else if 48 <= b && b <= 57 {
            (b - 48) as i32 + 52
        } else if b == 43 {
            62
        } else if b == 47 {
            63
        } else {
            -1
        };
        proof {
            assert(stripped.subrange(0, i - start + 1).drop_last() =~= stripped.subrange(
                0,
                i - start,
            ));
            assert(stripped.subrange(0, i - start + 1).last() == input@[i as int]);
        }
        if v < 0 {
            proof {
                lemma_b64_state_none(stripped, i - start + 1);
            }
            return None;
        }
        buf = (buf << 6u32) | (v as u32);
        bits = bits + 6;
        if bits >= 8 {
            bits = bits - 8;
            #[verifier::truncate]
            let byte = (buf >> bits) as u8;
            out.push(byte);
        }
        i += 1;
    }
    proof {
        assert(stripped.subrange(0, end2 - start) =~= stripped);
    }
    Some(out)
}

/// A failed prefix keeps the whole run failed.
proof fn lemma_b64_state_none(s: Seq<u8>, upto: int)
    requires
        0 <= upto <= s.len(),
        b64_state(s.subrange(0, upto)).is_none(),
    ensures
        b64_state(s).is_none(),
    decreases s.len() - upto,
{
    if upto < s.len() {
        assert(s.subrange(0, upto + 1).drop_last() =~= s.subrange(0, upto));
        lemma_b64_state_none(s, upto + 1);
    } else {
        assert(s.subrange(0, upto) =~= s);
    }
}

proof fn lemma_lead_spaces_step(s: Seq<u8>, k: int)
    requires
        0 <= k < s.len(),
        lead_spaces(s) >= k,
        is_space(s[k]),
    ensures
        lead_spaces(s) >= k + 1,
    decreases k,
{
    if k > 0 {
        assert(s.drop_first()[k - 1] == s[k]);
        lemma_lead_spaces_bound(s.drop_first());
        lemma_lead_spaces_step(s.drop_first(), k - 1);
    } else {
        lemma_lead_spaces_bound(s.drop_first());
    }
}

proof fn lemma_lead_spaces_stop(s: Seq<u8>, k: int)
    requires
        0 <= k < s.len(),
        lead_spaces(s) >= k,
        !is_space(s[k]),
    ensures
        lead_spaces(s) <= k,
    decreases k,
{
    if k > 0 {
        assert(s.drop_first()[k - 1] == s[k]);
        lemma_lead_spaces_stop(s.drop_first(), k - 1);
    }
}

proof fn lemma_lead_spaces_bound(s: Seq<u8>)
    ensures
        0 <= lead_spaces(s) <= s.len(),
    decreases s.len(),
{
    if s.len() > 0 && is_space(s[0]) {
        lemma_lead_spaces_bound(s.drop_first());
    }
}

proof fn lemma_trail_spaces_step(s: Seq<u8>, k: int)
    requires
        0 <= k,
        k < s.len(),
        trail_spaces(s) >= k,
        is_space(s[s.len() - k - 1]),
    ensures
        trail_spaces(s) >= k + 1,
    decreases k,
{
    if k > 0 {
        assert(s.drop_last()[s.len() - 1 - (k - 1) - 1] == s[s.len() - k - 1]);
        lemma_trail_spaces_bound(s.drop_last());
        lemma_trail_spaces_step(s.drop_last(), k - 1);
    } else {
        lemma_trail_spaces_bound(s.drop_last());
    }
}

proof fn lemma_trail_spaces_stop(s: Seq<u8>, k: int)
    requires
        0 <= k,
        k < s.len(),
        trail_spaces(s) >= k,
        !is_space(s[s.len() - k - 1]),
    ensures
        trail_spaces(s) <= k,
    decreases k,
{
    if k > 0 {
        assert(s.drop_last()[s.len() - 1 - (k - 1) - 1] == s[s.len() - k - 1]);
        lemma_trail_spaces_stop(s.drop_last(), k - 1);
    }
}

proof fn lemma_trail_spaces_bound(s: Seq<u8>)
    ensures
        0 <= trail_spaces(s) <= s.len(),
    decreases s.len(),
{
    if s.len() > 0 && is_space(s.last()) {
        lemma_trail_spaces_bound(s.drop_last());
    }
}

proof fn lemma_trail_eq_step(s: Seq<u8>, k: int)
    requires
        0 <= k,
        k < s.len(),
        trail_eq(s) >= k,
        s[s.len() - k - 1] == 61,
    ensures
        trail_eq(s) >= k + 1,
    decreases k,
{
    if k > 0 {
        assert(s.drop_last()[s.len() - 1 - (k - 1) - 1] == s[s.len() - k - 1]);
        lemma_trail_eq_bound(s.drop_last());
        lemma_trail_eq_step(s.drop_last(), k - 1);
    } else {
        lemma_trail_eq_bound(s.drop_last());
    }
}

proof fn lemma_trail_eq_stop(s: Seq<u8>, k: int)
    requires
        0 <= k,
        k < s.len(),
        trail_eq(s) >= k,
        s[s.len() - k - 1] != 61,
    ensures
        trail_eq(s) <= k,
    decreases k,
{
    if k > 0 {
        assert(s.drop_last()[s.len() - 1 - (k - 1) - 1] == s[s.len() - k - 1]);
        lemma_trail_eq_stop(s.drop_last(), k - 1);
    }
}

proof fn lemma_trail_eq_bound(s: Seq<u8>)
    ensures
        0 <= trail_eq(s) <= s.len(),
    decreases s.len(),
{
    if s.len() > 0 && s.last() == 61 {
        lemma_trail_eq_bound(s.drop_last());
    }
}

// ── byte search ─────────────────────────────────────────────────────────

/// First index of byte `b` in `s`, or -1.
pub open spec fn first_byte(s: Seq<u8>, b: u8) -> int
    decreases s.len(),
{
    if s.len() == 0 {
        -1
    } else if s[0] == b {
        0
    } else {
        let r = first_byte(s.drop_first(), b);
        if r == -1 {
            -1
        } else {
            r + 1
        }
    }
}

/// Last index of byte `b` in `s`, or -1.
pub open spec fn last_byte(s: Seq<u8>, b: u8) -> int
    decreases s.len(),
{
    if s.len() == 0 {
        -1
    } else if s.last() == b {
        s.len() - 1
    } else {
        last_byte(s.drop_last(), b)
    }
}

/// First index where `\r\n` starts in `s`, or -1.
pub open spec fn first_crlf(s: Seq<u8>) -> int
    decreases s.len(),
{
    if s.len() < 2 {
        -1
    } else if s[0] == 13 && s[1] == 10 {
        0
    } else {
        let r = first_crlf(s.drop_first());
        if r == -1 {
            -1
        } else {
            r + 1
        }
    }
}

/// First index where `\r\n\r\n` starts in `s`, or -1.
pub open spec fn first_crlf2(s: Seq<u8>) -> int
    decreases s.len(),
{
    if s.len() < 4 {
        -1
    } else if s[0] == 13 && s[1] == 10 && s[2] == 13 && s[3] == 10 {
        0
    } else {
        let r = first_crlf2(s.drop_first());
        if r == -1 {
            -1
        } else {
            r + 1
        }
    }
}

proof fn lemma_first_byte_char(s: Seq<u8>, b: u8, j: int)
    requires
        0 <= j <= s.len(),
        forall|k: int| 0 <= k < j ==> s[k] != b,
        j < s.len() ==> s[j] == b,
    ensures
        j < s.len() ==> first_byte(s, b) == j,
        j == s.len() ==> first_byte(s, b) == -1,
    decreases j,
{
    if j > 0 {
        assert forall|k: int| 0 <= k < j - 1 implies s.drop_first()[k] != b by {
            assert(s.drop_first()[k] == s[k + 1]);
        }
        assert(j - 1 < s.drop_first().len() ==> s.drop_first()[j - 1] == s[j]);
        lemma_first_byte_char(s.drop_first(), b, j - 1);
    } else {
        if j == s.len() {
        }
    }
}

proof fn lemma_first_byte_bounds(s: Seq<u8>, b: u8)
    ensures
        -1 <= first_byte(s, b) < s.len(),
    decreases s.len(),
{
    if s.len() > 0 && s[0] != b {
        lemma_first_byte_bounds(s.drop_first(), b);
    }
}

proof fn lemma_first_byte_none(s: Seq<u8>, b: u8)
    requires
        first_byte(s, b) == -1,
    ensures
        forall|i: int| 0 <= i < s.len() ==> s[i] != b,
    decreases s.len(),
{
    if s.len() > 0 {
        assert(s[0] != b);
        let r = first_byte(s.drop_first(), b);
        lemma_first_byte_bounds(s.drop_first(), b);
        if r != -1 {
            assert(first_byte(s, b) == r + 1);
            assert(false);
        }
        lemma_first_byte_none(s.drop_first(), b);
        assert forall|i: int| 0 <= i < s.len() implies s[i] != b by {
            if i > 0 {
                assert(s.drop_first()[i - 1] == s[i]);
            }
        }
    }
}

proof fn lemma_last_byte_char(s: Seq<u8>, b: u8, j: int)
    requires
        -1 <= j < s.len(),
        forall|k: int| j < k < s.len() ==> s[k] != b,
        j >= 0 ==> s[j] == b,
    ensures
        j >= 0 ==> last_byte(s, b) == j,
        j == -1 ==> last_byte(s, b) == -1,
    decreases s.len(),
{
    if s.len() > 0 && j < s.len() - 1 {
        assert forall|k: int| j < k < s.drop_last().len() implies s.drop_last()[k] != b by {
            assert(s.drop_last()[k] == s[k]);
        }
        lemma_last_byte_char(s.drop_last(), b, j);
    }
}

proof fn lemma_first_crlf_char(s: Seq<u8>, j: int)
    requires
        0 <= j <= s.len(),
        forall|k: int| 0 <= k < j ==> !(#[trigger] s[k] == 13 && k + 1 < s.len() && s[k + 1] == 10),
        j + 1 < s.len() ==> (s[j] == 13 && s[j + 1] == 10),
    ensures
        j + 1 < s.len() ==> first_crlf(s) == j,
        j + 1 >= s.len() ==> first_crlf(s) == -1,
    decreases j,
{
    if j > 0 {
        assert forall|k: int|
            0 <= k < j - 1 implies !(#[trigger] s.drop_first()[k] == 13 && k + 1
                < s.drop_first().len() && s.drop_first()[k + 1] == 10) by {
            assert(s.drop_first()[k] == s[k + 1]);
            if k + 1 < s.drop_first().len() {
                assert(s.drop_first()[k + 1] == s[k + 2]);
            }
        }
        if j < s.drop_first().len() {
            assert(s.drop_first()[j - 1] == s[j]);
            assert(s.drop_first()[j] == s[j + 1]);
        }
        lemma_first_crlf_char(s.drop_first(), j - 1);
    } else {
        if j + 1 >= s.len() && s.len() >= 2 {
            assert(!(s[0] == 13 && s[1] == 10));
        }
    }
}

proof fn lemma_first_crlf2_char(s: Seq<u8>, j: int)
    requires
        0 <= j <= s.len(),
        forall|k: int|
            0 <= k < j ==> !(#[trigger] s[k] == 13 && k + 3 < s.len() && s[k + 1] == 10 && s[k
                + 2] == 13 && s[k + 3] == 10),
        j + 3 < s.len() ==> (s[j] == 13 && s[j + 1] == 10 && s[j + 2] == 13 && s[j + 3] == 10),
    ensures
        j + 3 < s.len() ==> first_crlf2(s) == j,
        j + 3 >= s.len() ==> first_crlf2(s) == -1,
    decreases j,
{
    if j > 0 {
        assert forall|k: int|
            0 <= k < j - 1 implies !(#[trigger] s.drop_first()[k] == 13 && k + 3
                < s.drop_first().len() && s.drop_first()[k + 1] == 10 && s.drop_first()[k + 2]
                == 13 && s.drop_first()[k + 3] == 10) by {
            assert(s.drop_first()[k] == s[k + 1]);
            if k + 3 < s.drop_first().len() {
                assert(s.drop_first()[k + 1] == s[k + 2]);
                assert(s.drop_first()[k + 2] == s[k + 3]);
                assert(s.drop_first()[k + 3] == s[k + 4]);
            }
        }
        if j + 2 < s.drop_first().len() {
            assert(s.drop_first()[j - 1] == s[j]);
            assert(s.drop_first()[j] == s[j + 1]);
            assert(s.drop_first()[j + 1] == s[j + 2]);
            assert(s.drop_first()[j + 2] == s[j + 3]);
        }
        lemma_first_crlf2_char(s.drop_first(), j - 1);
    } else {
        if j + 3 >= s.len() && s.len() >= 4 {
            assert(!(s[0] == 13 && 3 < s.len() && s[1] == 10 && s[2] == 13 && s[3] == 10));
        }
    }
}

/// First position of `b` at or after `from`, reported against the suffix.
fn find_byte_from(s: &[u8], from: usize, b: u8) -> (r: Option<usize>)
    requires
        from <= s@.len(),
    ensures
        r matches Some(j) ==> from <= j < s@.len() && s@[j as int] == b && first_byte(
            s@.skip(from as int),
            b,
        ) == j - from,
        r.is_none() ==> first_byte(s@.skip(from as int), b) == -1,
{
    let mut j = from;
    while j < s.len() && s[j] != b
        invariant
            from <= j <= s@.len(),
            forall|k: int| from <= k < j ==> s@[k] != b,
        decreases s@.len() - j,
    {
        j += 1;
    }
    proof {
        let suf = s@.skip(from as int);
        assert forall|k: int| 0 <= k < j - from implies suf[k] != b by {
            assert(suf[k] == s@[from + k]);
        }
        if j < s@.len() {
            assert(suf[j - from] == s@[j as int]);
        }
        lemma_first_byte_char(suf, b, j - from);
    }
    if j < s.len() {
        Some(j)
    } else {
        None
    }
}

/// Last position of `b` in `s`.
fn find_last_byte(s: &[u8], b: u8) -> (r: Option<usize>)
    ensures
        r matches Some(j) ==> j < s@.len() && s@[j as int] == b && last_byte(s@, b) == j,
        r.is_none() ==> last_byte(s@, b) == -1,
{
    let mut j = s.len();
    while j > 0 && s[j - 1] != b
        invariant
            j <= s@.len(),
            forall|k: int| j <= k < s@.len() ==> s@[k] != b,
        decreases j,
    {
        j -= 1;
    }
    proof {
        lemma_last_byte_char(s@, b, j - 1);
    }
    if j > 0 {
        Some(j - 1)
    } else {
        None
    }
}

/// First position of `\r\n` at or after `from`, against the suffix.
fn find_crlf_from(s: &[u8], from: usize) -> (r: Option<usize>)
    requires
        from <= s@.len(),
    ensures
        r matches Some(j) ==> from <= j && j + 1 < s@.len() && s@[j as int] == 13 && s@[j + 1]
            == 10 && first_crlf(s@.skip(from as int)) == j - from,
        r.is_none() ==> first_crlf(s@.skip(from as int)) == -1,
{
    let mut j = from;
    while s.len() > 0 && j < s.len() - 1 && !(s[j] == 13 && s[j + 1] == 10)
        invariant
            from <= j,
            j <= s@.len(),
            forall|k: int| from <= k < j ==> !(#[trigger] s@[k] == 13 && k + 1 < s@.len() && s@[k + 1] == 10),
        decreases s@.len() - j,
    {
        j += 1;
    }
    proof {
        let suf = s@.skip(from as int);
        let jj: int = j as int;
        assert forall|k: int|
            0 <= k < jj - from implies !(#[trigger] suf[k] == 13 && k + 1 < suf.len() && suf[k
                + 1] == 10) by {
            assert(suf[k] == s@[from + k]);
            if k + 1 < suf.len() {
                assert(suf[k + 1] == s@[from + k + 1]);
            }
        }
        if jj - from + 1 < suf.len() {
            assert(suf[jj - from] == s@[jj]);
            assert(suf[jj - from + 1] == s@[jj + 1]);
        }
        lemma_first_crlf_char(suf, jj - from);
    }
    if s.len() > 0 && j < s.len() - 1 {
        Some(j)
    } else {
        None
    }
}

/// First position of `\r\n\r\n` at or after `from`, against the suffix.
fn find_crlf2_from(s: &[u8], from: usize) -> (r: Option<usize>)
    requires
        from <= s@.len(),
    ensures
        r matches Some(j) ==> from <= j && j + 3 < s@.len() && first_crlf2(s@.skip(from as int))
            == j - from,
        r.is_none() ==> first_crlf2(s@.skip(from as int)) == -1,
{
    let mut j = from;
    while s.len() > 3 && j < s.len() - 3 && !(s[j] == 13 && s[j + 1] == 10 && s[j + 2] == 13
        && s[j + 3] == 10)
        invariant
            from <= j,
            j <= s@.len(),
            forall|k: int|
                from <= k < j ==> !(#[trigger] s@[k] == 13 && k + 3 < s@.len() && s@[k + 1] == 10
                    && s@[k + 2] == 13 && s@[k + 3] == 10),
        decreases s@.len() - j,
    {
        j += 1;
    }
    proof {
        let suf = s@.skip(from as int);
        let jj: int = j as int;
        assert forall|k: int|
            0 <= k < jj - from implies !(#[trigger] suf[k] == 13 && k + 3 < suf.len() && suf[k
                + 1] == 10 && suf[k + 2] == 13 && suf[k + 3] == 10) by {
            assert(suf[k] == s@[from + k]);
            if k + 3 < suf.len() {
                assert(suf[k + 1] == s@[from + k + 1]);
                assert(suf[k + 2] == s@[from + k + 2]);
                assert(suf[k + 3] == s@[from + k + 3]);
            }
        }
        if jj - from + 3 < suf.len() {
            assert(suf[jj - from] == s@[jj]);
            assert(suf[jj - from + 1] == s@[jj + 1]);
            assert(suf[jj - from + 2] == s@[jj + 2]);
            assert(suf[jj - from + 3] == s@[jj + 3]);
        }
        lemma_first_crlf2_char(suf, jj - from);
    }
    if s.len() > 3 && j < s.len() - 3 {
        Some(j)
    } else {
        None
    }
}

/// The input split at every line feed (the separators dropped).
pub open spec fn split_lf(s: Seq<u8>) -> Seq<Seq<u8>>
    decreases s.len(),
{
    let i = first_byte(s, 10);
    if i < 0 || i + 1 > s.len() {
        seq![s]
    } else {
        seq![s.take(i)] + split_lf(s.skip(i + 1))
    }
}

/// A line with its trailing carriage return dropped.
pub open spec fn line_norm(l: Seq<u8>) -> Seq<u8> {
    if l.len() > 0 && l.last() == 13 {
        l.drop_last()
    } else {
        l
    }
}

/// Split a buffer at every line feed.
fn split_lf_exec(s: &[u8]) -> (r: Vec<Vec<u8>>)
    ensures
        r@.len() == split_lf(s@).len(),
        forall|i: int| 0 <= i < r@.len() ==> (#[trigger] r@[i])@ == split_lf(s@)[i],
{
    let mut out: Vec<Vec<u8>> = Vec::new();
    proof {
        assert(s@.skip(0) =~= s@);
        assert(split_lf(s@).skip(0) =~= split_lf(s@));
    }
    let mut pos: usize = 0;
    while pos <= s.len()
        invariant
            pos <= s@.len(),
            out@.len() <= pos,
            split_lf(s@).len() == out@.len() + split_lf(s@.skip(pos as int)).len(),
            split_lf(s@).skip(out@.len() as int) == split_lf(s@.skip(pos as int)),
            forall|i: int| 0 <= i < out@.len() ==> (#[trigger] out@[i])@ == split_lf(s@)[i],
        decreases s@.len() - pos,
    {
        let ghost rest = s@.skip(pos as int);
        match find_byte_from(s, pos, 10) {
            Some(j) => {
                let line = copy_range(s, pos, j);
                proof {
                    assert(first_byte(rest, 10) == j - pos);
                    assert(rest.take(j - pos) =~= s@.subrange(pos as int, j as int));
                    assert(rest.skip(j - pos + 1) =~= s@.skip(j + 1));
                    assert(split_lf(rest) == seq![rest.take(j - pos)] + split_lf(
                        s@.skip(j + 1),
                    ));
                    assert((seq![rest.take(j - pos)] + split_lf(s@.skip(j + 1)))[0] == rest.take(
                        j - pos,
                    ));
                    assert((seq![rest.take(j - pos)] + split_lf(s@.skip(j + 1))).skip(1)
                        =~= split_lf(s@.skip(j + 1)));
                    assert(split_lf(s@)[out@.len() as int] == split_lf(rest)[0]);
                }
                out.push(line);
                pos = j + 1;
                proof {
                    assert(split_lf(s@).skip(out@.len() as int) =~= split_lf(
                        s@.skip(pos as int),
                    ));
                }
            },
            None => {
                let line = copy_range(s, pos, s.len());
                proof {
                    assert(first_byte(rest, 10) == -1);
                    assert(split_lf(rest) =~= seq![rest]);
                    assert(rest =~= s@.subrange(pos as int, s@.len() as int));
                    assert(split_lf(s@).skip(out@.len() as int)[0] == split_lf(
                        s@,
                    )[out@.len() as int]);
                    assert(split_lf(s@)[out@.len() as int] == rest);
                }
                out.push(line);
                proof {
                    assert(out@.len() == split_lf(s@).len());
                }
                return out;
            },
        }
    }
    proof {
        assert(false);
    }
    out
}

// ── proxy authentication ────────────────────────────────────────────────

/// Index of the first line naming the proxy-authorization header
/// (case-insensitively), or -1.
pub open spec fn auth_line_idx(lines: Seq<Seq<u8>>) -> int
    decreases lines.len(),
{
    if lines.len() == 0 {
        -1
    } else if spec_starts_with_lower(line_norm(lines[0]), utf8_of("proxy-authorization:"@)) {
        0
    } else {
        let r = auth_line_idx(lines.drop_first());
        if r == -1 {
            -1
        } else {
            r + 1
        }
    }
}

proof fn lemma_auth_idx_char(lines: Seq<Seq<u8>>, j: int)
    requires
        0 <= j <= lines.len(),
        forall|k: int|
            0 <= k < j ==> !spec_starts_with_lower(
                line_norm(#[trigger] lines[k]),
                utf8_of("proxy-authorization:"@),
            ),
        j < lines.len() ==> spec_starts_with_lower(
            line_norm(lines[j]),
            utf8_of("proxy-authorization:"@),
        ),
    ensures
        j < lines.len() ==> auth_line_idx(lines) == j,
        j == lines.len() ==> auth_line_idx(lines) == -1,
    decreases j,
{
    if j > 0 {
        assert forall|k: int|
            0 <= k < j - 1 implies !spec_starts_with_lower(
            line_norm(#[trigger] lines.drop_first()[k]),
            utf8_of("proxy-authorization:"@),
        ) by {
            assert(lines.drop_first()[k] == lines[k + 1]);
        }
        if j < lines.len() {
            assert(lines.drop_first()[j - 1] == lines[j]);
        }
        lemma_auth_idx_char(lines.drop_first(), j - 1);
    }
}

/// The decoded credentials split at their first colon: username before,
/// password after (empty when no colon).
pub open spec fn creds_split(bytes: Seq<u8>) -> (Seq<u8>, Seq<u8>) {
    let ci = first_byte(bytes, 58);
    if ci < 0 {
        (bytes, Seq::<u8>::empty())
    } else {
        (bytes.take(ci), bytes.skip(ci + 1))
    }
}

/// Whether a request passes Basic proxy authentication: with auth off,
/// always; otherwise the first proxy-authorization header line must carry
/// a `Basic`-scheme base64 value whose decoded `user:pass` matches the
/// configured credentials (an unconfigured side matches anything).
pub open spec fn spec_check_auth(
    req: Seq<u8>,
    enabled: bool,
    user: Option<Seq<char>>,
    pass: Option<Seq<char>>,
) -> bool {
    if !enabled {
        true
    } else {
        let lines = split_lf(req);
        let li = auth_line_idx(lines);
        if li < 0 {
            false
        } else {
            let l = line_norm(lines[li]);
            let value = spec_trim(l.skip(first_byte(l, 58) + 1));
            if !(spec_starts_with(value, utf8_of("Basic "@)) || spec_starts_with(
                value,
                utf8_of("basic "@),
            )) {
                false
            } else {
                match spec_decode_base64(value.skip(6)) {
                    None => false,
                    Some(bytes) => crate::protocol::socks5::credentials_ok(
                        creds_split(bytes).0,
                        creds_split(bytes).1,
                        user,
                        pass,
                    ),
                }
            }
        }
    }
}

/// Strip a line's trailing carriage return into an owned copy.
fn line_norm_exec(l: &Vec<u8>) -> (r: Vec<u8>)
    ensures
        r@ == line_norm(l@),
{
    let n = l.len();
    if n > 0 && l[n - 1] == 13 {
        let r = copy_range(l.as_slice(), 0, n - 1);
        proof {
            assert(l@.subrange(0, n - 1) =~= l@.drop_last());
        }
        r
    } else {
        let r = copy_range(l.as_slice(), 0, n);
        proof {
            assert(l@.subrange(0, n as int) =~= l@);
        }
        r
    }
}

/// Trim ASCII whitespace from both ends, returning the kept range.
fn trim_bounds(s: &[u8]) -> (r: (usize, usize))
    ensures
        r.0 <= r.1 <= s@.len(),
        s@.subrange(r.0 as int, r.1 as int) == spec_trim(s@),
{
    proof {
        lemma_lead_spaces_bound(s@);
    }
    let mut a: usize = 0;
    while a < s.len() && (s[a] == 32 || s[a] == 9 || s[a] == 10 || s[a] == 11 || s[a] == 12
        || s[a] == 13)
        invariant
            a <= s@.len(),
            lead_spaces(s@) >= a,
        decreases s@.len() - a,
    {
        proof {
            lemma_lead_spaces_step(s@, a as int);
        }
        a += 1;
    }
    proof {
        lemma_lead_spaces_bound(s@);
        if a < s@.len() {
            lemma_lead_spaces_stop(s@, a as int);
        }
        assert(lead_spaces(s@) == a);
    }
    let ghost t0 = s@.skip(a as int);
    proof {
        lemma_trail_spaces_bound(t0);
    }
    let mut b: usize = s.len();
    while b > a && (s[b - 1] == 32 || s[b - 1] == 9 || s[b - 1] == 10 || s[b - 1] == 11 || s[b
        - 1] == 12 || s[b - 1] == 13)
        invariant
            a <= b <= s@.len(),
            t0 == s@.skip(a as int),
            trail_spaces(t0) >= s@.len() - b,
        decreases b,
    {
        proof {
            let k = s@.len() - b;
            assert(t0.len() == s@.len() - a);
            assert(t0[t0.len() - k - 1] == s@[a + (t0.len() - k - 1)]);
            assert(a + (t0.len() - k - 1) == b - 1);
            lemma_trail_spaces_step(t0, k);
        }
        b -= 1;
    }
    proof {
        lemma_trail_spaces_bound(t0);
        if b > a {
            let k = s@.len() - b;
            assert(t0.len() == s@.len() - a);
            assert(t0[t0.len() - k - 1] == s@[a + (t0.len() - k - 1)]);
            assert(a + (t0.len() - k - 1) == b - 1);
            lemma_trail_spaces_stop(t0, k);
        }
        assert(trail_spaces(t0) == s@.len() - b);
        assert(t0.take(t0.len() - trail_spaces(t0)) =~= s@.subrange(a as int, b as int));
    }
    (a, b)
}

/// Check the `Proxy-Authorization` header of a request against the
/// configured credentials.
pub fn check_proxy_auth(
    request: &[u8],
    auth_enabled: bool,
    username: &Option<String>,
    password: &Option<String>,
) -> (r: bool)
    ensures
        r == spec_check_auth(
            request@,
            auth_enabled,
            match username {
                Some(u) => Some(u@),
                None => None,
            },
            match password {
                Some(p) => Some(p@),
                None => None,
            },
        ),
{
    if !auth_enabled {
        return true;
    }
    let lines = split_lf_exec(request);
    let ghost lines_spec = split_lf(request@);
    let mut li: usize = 0;
    let mut found = false;
    while li < lines.len() && !found
        invariant
            li <= lines@.len(),
            lines@.len() == lines_spec.len(),
            forall|i: int| 0 <= i < lines@.len() ==> (#[trigger] lines@[i])@ == lines_spec[i],
            !found ==> forall|k: int|
                0 <= k < li ==> !spec_starts_with_lower(
                    line_norm(#[trigger] lines_spec[k]),
                    utf8_of("proxy-authorization:"@),
                ),
            found ==> li < lines@.len() && spec_starts_with_lower(
                line_norm(lines_spec[li as int]),
                utf8_of("proxy-authorization:"@),
            ) && forall|k: int|
                0 <= k < li ==> !spec_starts_with_lower(
                    line_norm(#[trigger] lines_spec[k]),
                    utf8_of("proxy-authorization:"@),
                ),
        decreases lines@.len() - li + (if found {
            0int
        } else {
            1
        }),
    {
        let norm = line_norm_exec(&lines[li]);
        if crate::bytes::bytes_starts_with_lower(
            norm.as_slice(),
            "proxy-authorization:".as_bytes(),
        ) {
            found = true;
        } else {
            li += 1;
        }
    }
    proof {
        if found {
            lemma_auth_idx_char(lines_spec, li as int);
        } else {
            lemma_auth_idx_char(lines_spec, lines_spec.len() as int);
        }
    }
    if !found {
        return false;
    }
    let norm = line_norm_exec(&lines[li]);
    proof {
        assert(norm@.skip(0) =~= norm@);
    }
    let ci = match find_byte_from(norm.as_slice(), 0, 58) {
        Some(c) => c,
        None => {
            // a matching header line always carries its colon
            proof {
                let pfx = utf8_of("proxy-authorization:"@);
                reveal_strlit("proxy-authorization:");
                vstd::utf8::is_ascii_chars_encode_utf8("proxy-authorization:"@);
                assert(pfx.len() == 20);
                assert(pfx[19] == 58) by {
                    assert("proxy-authorization:"@[19] == ':');
                }
                let folded = norm@.subrange(0, 20).map_values(|x: u8| spec_lower(x));
                assert(folded == pfx);
                assert(folded[19] == pfx[19]);
                assert(folded[19] == spec_lower(norm@.subrange(0, 20)[19]));
                assert(norm@.subrange(0, 20)[19] == norm@[19]);
                assert(spec_lower(norm@[19]) == 58);
                assert(norm@[19] == 58);
                assert(norm@.skip(0) =~= norm@);
                lemma_first_byte_none(norm@, 58);
            }
            0
        },
    };
    let nlen = norm.len();
    assert(ci < nlen);
    let after = copy_range(norm.as_slice(), ci + 1, nlen);
    let tb = trim_bounds(after.as_slice());
    let value = copy_range(after.as_slice(), tb.0, tb.1);
    proof {
        assert(after@ =~= line_norm(lines_spec[li as int]).skip(
            first_byte(line_norm(lines_spec[li as int]), 58) + 1,
        ));
    }
    let is_basic = crate::bytes::bytes_starts_with(value.as_slice(), "Basic ".as_bytes())
        || crate::bytes::bytes_starts_with(value.as_slice(), "basic ".as_bytes());
    if !is_basic {
        proof {
            reveal_strlit("Basic ");
            reveal_strlit("basic ");
        }
        return false;
    }
    proof {
        reveal_strlit("Basic ");
        reveal_strlit("basic ");
        assert(utf8_of("Basic "@).len() == 6) by {
            vstd::utf8::is_ascii_chars_encode_utf8("Basic "@);
        }
        assert(utf8_of("basic "@).len() == 6) by {
            vstd::utf8::is_ascii_chars_encode_utf8("basic "@);
        }
        assert(value@.len() >= 6);
    }
    let enc = copy_range(value.as_slice(), 6, value.len());
    proof {
        assert(enc@ =~= value@.skip(6));
    }
    let bytes = match decode_base64(enc.as_slice()) {
        Some(b) => b,
        None => {
            return false;
        },
    };
    proof {
        assert(bytes@.skip(0) =~= bytes@);
    }
    let bn = bytes.len();
    let (u, p) = match find_byte_from(bytes.as_slice(), 0, 58) {
        Some(c2) => {
            assert(c2 < bn);
            let u = copy_range(bytes.as_slice(), 0, c2);
            let p = copy_range(bytes.as_slice(), c2 + 1, bn);
            proof {
                assert(u@ =~= creds_split(bytes@).0);
                assert(p@ =~= creds_split(bytes@).1);
            }
            (u, p)
        },
        None => {
            let u = copy_range(bytes.as_slice(), 0, bytes.len());
            proof {
                assert(u@ =~= creds_split(bytes@).0);
                assert(Seq::<u8>::empty() =~= creds_split(bytes@).1);
            }
            (u, Vec::new())
        },
    };
    crate::protocol::socks5::check_credentials(&u, &p, username, password)
}

// ── tokens and request lines ────────────────────────────────────────────

/// The longest non-whitespace prefix of `s`.
pub open spec fn lead_nonspaces(s: Seq<u8>) -> int
    decreases s.len(),
{
    if s.len() == 0 || is_space(s[0]) {
        0
    } else {
        1 + lead_nonspaces(s.drop_first())
    }
}

proof fn lemma_lead_nonspaces_bound(s: Seq<u8>)
    ensures
        0 <= lead_nonspaces(s) <= s.len(),
    decreases s.len(),
{
    if s.len() > 0 && !is_space(s[0]) {
        lemma_lead_nonspaces_bound(s.drop_first());
    }
}

proof fn lemma_lead_nonspaces_step(s: Seq<u8>, k: int)
    requires
        0 <= k < s.len(),
        lead_nonspaces(s) >= k,
        !is_space(s[k]),
    ensures
        lead_nonspaces(s) >= k + 1,
    decreases k,
{
    if k > 0 {
        assert(s.drop_first()[k - 1] == s[k]);
        lemma_lead_nonspaces_bound(s.drop_first());
        lemma_lead_nonspaces_step(s.drop_first(), k - 1);
    } else {
        lemma_lead_nonspaces_bound(s.drop_first());
    }
}

proof fn lemma_lead_nonspaces_stop(s: Seq<u8>, k: int)
    requires
        0 <= k < s.len(),
        lead_nonspaces(s) >= k,
        is_space(s[k]),
    ensures
        lead_nonspaces(s) <= k,
    decreases k,
{
    if k > 0 {
        assert(s.drop_first()[k - 1] == s[k]);
        lemma_lead_nonspaces_stop(s.drop_first(), k - 1);
    }
}

/// The `n`-th whitespace-delimited token of `s`, or the empty run when
/// there are fewer tokens.
pub open spec fn spec_nth_token(s: Seq<u8>, n: int) -> Seq<u8>
    decreases s.len(), n,
    via spec_nth_token_dec
{
    if s.len() == 0 {
        Seq::empty()
    } else if is_space(s[0]) {
        spec_nth_token(s.drop_first(), n)
    } else if n <= 0 {
        s.take(lead_nonspaces(s))
    } else {
        spec_nth_token(s.skip(lead_nonspaces(s)), n - 1)
    }
}

#[via_fn]
proof fn spec_nth_token_dec(s: Seq<u8>, n: int) {
    if s.len() > 0 && !is_space(s[0]) && n > 0 {
        lemma_lead_nonspaces_bound(s.drop_first());
        assert(lead_nonspaces(s) == 1 + lead_nonspaces(s.drop_first()));
        lemma_lead_nonspaces_bound(s);
    }
}

/// Find the `n`-th token at or after `from`: its bounds in `l`, or `None`
/// when fewer tokens remain.
fn nth_token_range(l: &[u8], from: usize, n: usize) -> (r: Option<(usize, usize)>)
    requires
        from <= l@.len(),
    ensures
        r matches Some(ab) ==> from <= ab.0 < ab.1 <= l@.len() && l@.subrange(
            ab.0 as int,
            ab.1 as int,
        ) == spec_nth_token(l@.skip(from as int), n as int) && spec_nth_token(
            l@.skip(from as int),
            n as int,
        ).len() > 0,
        r.is_none() ==> spec_nth_token(l@.skip(from as int), n as int).len() == 0,
    decreases l@.len() - from, n,
{
    let ghost suf = l@.skip(from as int);
    if from == l.len() {
        return None;
    }
    let b0 = l[from];
    if b0 == 32 || b0 == 9 || b0 == 10 || b0 == 11 || b0 == 12 || b0 == 13 {
        proof {
            assert(suf[0] == l@[from as int]);
            assert(suf.drop_first() =~= l@.skip(from + 1));
        }
        return nth_token_range(l, from + 1, n);
    }
    // scan the token
    let mut e = from;
    proof {
        lemma_lead_nonspaces_bound(suf);
        assert(suf[0] == l@[from as int]);
    }
    while e < l.len() && !(l[e] == 32 || l[e] == 9 || l[e] == 10 || l[e] == 11 || l[e] == 12
        || l[e] == 13)
        invariant
            from <= e <= l@.len(),
            suf == l@.skip(from as int),
            lead_nonspaces(suf) >= e - from,
        decreases l@.len() - e,
    {
        proof {
            assert(suf[e - from] == l@[e as int]);
            lemma_lead_nonspaces_step(suf, e - from);
        }
        e += 1;
    }
    proof {
        lemma_lead_nonspaces_bound(suf);
        if e < l@.len() {
            assert(suf[e - from] == l@[e as int]);
            lemma_lead_nonspaces_stop(suf, e - from);
        }
        assert(lead_nonspaces(suf) == e - from);
    }
    if n == 0 {
        proof {
            assert(suf.take(e - from) =~= l@.subrange(from as int, e as int));
            assert(e > from);
        }
        Some((from, e))
    } else {
        proof {
            assert(suf.skip(e - from) =~= l@.skip(e as int));
        }
        nth_token_range(l, e, n - 1)
    }
}

/// The first line of a request (up to the first line feed, its carriage
/// return stripped).
pub open spec fn spec_first_line(req: Seq<u8>) -> Seq<u8> {
    let i = first_byte(req, 10);
    let raw = if i < 0 {
        req
    } else {
        req.take(i)
    };
    line_norm(raw)
}

/// Copy the first line of a request.
fn first_line_vec(req: &[u8]) -> (r: Vec<u8>)
    ensures
        r@ == spec_first_line(req@),
{
    proof {
        assert(req@.skip(0) =~= req@);
    }
    let raw_end = match find_byte_from(req, 0, 10) {
        Some(j) => j,
        None => req.len(),
    };
    proof {
        if raw_end < req@.len() {
            assert(req@.take(raw_end as int) =~= req@.subrange(0, raw_end as int));
        } else {
            assert(req@.take(raw_end as int) =~= req@);
        }
    }
    let fl_end = if raw_end > 0 && req[raw_end - 1] == 13 {
        raw_end - 1
    } else {
        raw_end
    };
    let r = copy_range(req, 0, fl_end);
    proof {
        let raw = if first_byte(req@, 10) < 0 {
            req@
        } else {
            req@.take(first_byte(req@, 10))
        };
        if raw.len() > 0 && raw.last() == 13 {
            assert(r@ =~= raw.drop_last());
        } else {
            assert(r@ =~= raw);
        }
    }
    r
}

// ── URL and CONNECT-target parsing ──────────────────────────────────────

/// The leading run of colons.
pub open spec fn lead_colons(s: Seq<u8>) -> int
    decreases s.len(),
{
    if s.len() == 0 || s[0] != 58 {
        0
    } else {
        1 + lead_colons(s.drop_first())
    }
}

proof fn lemma_lead_colons_bound(s: Seq<u8>)
    ensures
        0 <= lead_colons(s) <= s.len(),
    decreases s.len(),
{
    if s.len() > 0 && s[0] == 58 {
        lemma_lead_colons_bound(s.drop_first());
    }
}

proof fn lemma_lead_colons_step(s: Seq<u8>, k: int)
    requires
        0 <= k < s.len(),
        lead_colons(s) >= k,
        s[k] == 58,
    ensures
        lead_colons(s) >= k + 1,
    decreases k,
{
    if k > 0 {
        assert(s.drop_first()[k - 1] == s[k]);
        lemma_lead_colons_bound(s.drop_first());
        lemma_lead_colons_step(s.drop_first(), k - 1);
    } else {
        lemma_lead_colons_bound(s.drop_first());
    }
}

proof fn lemma_lead_colons_stop(s: Seq<u8>, k: int)
    requires
        0 <= k < s.len(),
        lead_colons(s) >= k,
        s[k] != 58,
    ensures
        lead_colons(s) <= k,
    decreases k,
{
    if k > 0 {
        assert(s.drop_first()[k - 1] == s[k]);
        lemma_lead_colons_stop(s.drop_first(), k - 1);
    }
}

/// A port field parsed as decimal, or the default when empty, non-numeric
/// or out of range.
pub open spec fn port_or(p: Seq<u8>, default: u16) -> u16 {
    if p.len() > 0 && all_digits(p) && digits_value(p) <= 65535 {
        digits_value(p) as u16
    } else {
        default
    }
}

/// What `parse_connect_target` yields from a `host:port` field: bracketed
/// IPv6 hosts keep the bytes inside the brackets and take the port after
/// them; otherwise the field splits at its last colon. Port defaults to
/// 443 when absent or unparsable.
pub open spec fn spec_parse_connect_target(s: Seq<u8>) -> Option<(Seq<u8>, u16)> {
    if s.len() > 0 && s[0] == 91 {
        let e = first_byte(s, 93);
        if e < 0 {
            None
        } else {
            let rest = s.skip(e + 1);
            Some((s.subrange(1, e), port_or(rest.skip(lead_colons(rest)), 443)))
        }
    } else {
        let c = last_byte(s, 58);
        if c < 0 {
            None
        } else {
            Some((s.take(c), port_or(s.skip(c + 1), 443)))
        }
    }
}

/// Parse a CONNECT `host:port` field.
pub fn parse_connect_target(host_port: &[u8]) -> (r: Option<(Vec<u8>, u16)>)
    ensures
        r.is_some() <==> spec_parse_connect_target(host_port@).is_some(),
        r matches Some(hp) ==> Some((hp.0@, hp.1)) == spec_parse_connect_target(host_port@),
{
    proof {
        assert(host_port@.skip(0) =~= host_port@);
    }
    if host_port.len() > 0 && host_port[0] == 91 {
        let e = match find_byte_from(host_port, 0, 93) {
            Some(j) => j,
            None => {
                return None;
            },
        };
        let host = copy_range(host_port, 1, e);
        let ghost rest = host_port@.skip(e + 1);
        proof {
            lemma_lead_colons_bound(rest);
        }
        let mut p = e + 1;
        while p < host_port.len() && host_port[p] == 58
            invariant
                e + 1 <= p <= host_port@.len(),
                rest == host_port@.skip(e + 1),
                lead_colons(rest) >= p - e - 1,
            decreases host_port@.len() - p,
        {
            proof {
                assert(rest[p - e - 1] == host_port@[p as int]);
                lemma_lead_colons_step(rest, p - e - 1);
            }
            p += 1;
        }
        proof {
            lemma_lead_colons_bound(rest);
            if p < host_port@.len() {
                assert(rest[p - e - 1] == host_port@[p as int]);
                lemma_lead_colons_stop(rest, p - e - 1);
            }
            assert(lead_colons(rest) == p - e - 1);
            assert(rest.skip(lead_colons(rest)) =~= host_port@.subrange(
                p as int,
                host_port@.len() as int,
            ));
        }
        let pstr = copy_range(host_port, p, host_port.len());
        let port = match parse_u16_dec(pstr.as_slice()) {
            Some(v) => v,
            None => 443,
        };
        proof {
            assert(host@ =~= host_port@.subrange(1, e as int));
        }
        Some((host, port))
    } else {
        let c = match find_last_byte(host_port, 58) {
            Some(j) => j,
            None => {
                return None;
            },
        };
        let host = copy_range(host_port, 0, c);
        let pstr = copy_range(host_port, c + 1, host_port.len());
        let port = match parse_u16_dec(pstr.as_slice()) {
            Some(v) => v,
            None => 443,
        };
        proof {
            assert(host@ =~= host_port@.take(c as int));
            assert(pstr@ =~= host_port@.skip(c + 1));
        }
        Some((host, port))
    }
}

/// What `parse_http_url` yields from a request whose first line carries an
/// absolute `http://` URL: the host, the port (from the host field's last
/// colon, default 80), and the path (default `/`).
pub open spec fn spec_parse_http_url(req: Seq<u8>) -> Option<(Seq<u8>, u16, Seq<u8>)> {
    let fl = spec_first_line(req);
    let url = spec_nth_token(fl, 1);
    if req.len() == 0 || url.len() == 0 || !spec_starts_with(url, utf8_of("http://"@)) {
        None
    } else {
        let rest = url.skip(7);
        let sl = first_byte(rest, 47);
        let host_port = if sl < 0 {
            rest
        } else {
            rest.take(sl)
        };
        let path = if sl < 0 {
            seq![47u8]
        } else {
            rest.skip(sl)
        };
        let c = last_byte(host_port, 58);
        let host = if c < 0 {
            host_port
        } else {
            host_port.take(c)
        };
        let port = if c < 0 {
            80u16
        } else {
            port_or(host_port.skip(c + 1), 80)
        };
        Some((host, port, path))
    }
}

/// Parse the absolute URL out of a plain proxied request.
pub fn parse_http_url(request: &[u8]) -> (r: Option<(Vec<u8>, u16, Vec<u8>)>)
    ensures
        r.is_some() <==> spec_parse_http_url(request@).is_some(),
        r matches Some(t) ==> Some((t.0@, t.1, t.2@)) == spec_parse_http_url(request@),
{
    if request.len() == 0 {
        return None;
    }
    let fl = first_line_vec(request);
    proof {
        assert(fl@.skip(0) =~= fl@);
    }
    let url_range = match nth_token_range(fl.as_slice(), 0, 1) {
        Some(ab) => ab,
        None => {
            return None;
        },
    };
    let url = copy_range(fl.as_slice(), url_range.0, url_range.1);
    if !crate::bytes::bytes_starts_with(url.as_slice(), "http://".as_bytes()) {
        return None;
    }
    proof {
        reveal_strlit("http://");
        assert(utf8_of("http://"@).len() == 7) by {
            vstd::utf8::is_ascii_chars_encode_utf8("http://"@);
        }
    }
    let rest = copy_range(url.as_slice(), 7, url.len());
    proof {
        assert(rest@ =~= url@.skip(7));
        assert(rest@.skip(0) =~= rest@);
    }
    let (host_port, path) = match find_byte_from(rest.as_slice(), 0, 47) {
        Some(sl) => {
            let hp = copy_range(rest.as_slice(), 0, sl);
            let pa = copy_range(rest.as_slice(), sl, rest.len());
            proof {
                assert(hp@ =~= rest@.take(sl as int));
                assert(pa@ =~= rest@.skip(sl as int));
            }
            (hp, pa)
        },
        None => {
            let hp = copy_range(rest.as_slice(), 0, rest.len());
            let mut pa: Vec<u8> = Vec::new();
            pa.push(47);
            proof {
                assert(hp@ =~= rest@);
                assert(pa@ =~= seq![47u8]);
            }
            (hp, pa)
        },
    };
    let (host, port) = match find_last_byte(host_port.as_slice(), 58) {
        Some(c) => {
            let h = copy_range(host_port.as_slice(), 0, c);
            let pstr = copy_range(host_port.as_slice(), c + 1, host_port.len());
            let po = match parse_u16_dec(pstr.as_slice()) {
                Some(v) => v,
                None => 80,
            };
            proof {
                assert(h@ =~= host_port@.take(c as int));
                assert(pstr@ =~= host_port@.skip(c + 1));
            }
            (h, po)
        },
        None => {
            let h = copy_range(host_port.as_slice(), 0, host_port.len());
            proof {
                assert(h@ =~= host_port@);
            }
            (h, 80u16)
        },
    };
    Some((host, port, path))
}

// ── request transformation ──────────────────────────────────────────────

/// The two-byte line terminator.
pub open spec fn crlf() -> Seq<u8> {
    seq![13u8, 10u8]
}

/// The input split at every `\r\n` (the separators dropped).
pub open spec fn split_crlf(s: Seq<u8>) -> Seq<Seq<u8>>
    decreases s.len(),
{
    let i = first_crlf(s);
    if i < 0 || i + 2 > s.len() {
        seq![s]
    } else {
        seq![s.take(i)] + split_crlf(s.skip(i + 2))
    }
}

/// Lines joined back with `\r\n` between them.
pub open spec fn join_crlf(ls: Seq<Seq<u8>>) -> Seq<u8>
    decreases ls.len(),
{
    if ls.len() == 0 {
        Seq::empty()
    } else if ls.len() == 1 {
        ls[0]
    } else {
        join_crlf(ls.drop_last()) + crlf() + ls.last()
    }
}

/// A header line that survives forwarding: non-empty and naming neither
/// `Proxy-Authorization` nor `Connection`.
pub open spec fn header_kept(l: Seq<u8>) -> bool {
    l.len() > 0 && !spec_starts_with_lower(l, utf8_of("proxy-authorization:"@))
        && !spec_starts_with_lower(l, utf8_of("connection:"@))
}

/// What stands after the request line (past the first `\r\n`).
pub open spec fn spec_after_first(req: Seq<u8>) -> Seq<u8> {
    let i = first_crlf(req);
    if i < 0 || i + 2 > req.len() {
        Seq::empty()
    } else {
        req.skip(i + 2)
    }
}

/// The raw header block: up to the blank line, or everything when there
/// is none.
pub open spec fn spec_headers_raw(req: Seq<u8>) -> Seq<u8> {
    let a = spec_after_first(req);
    let b = first_crlf2(a);
    if b < 0 || b + 4 > a.len() {
        a
    } else {
        a.take(b)
    }
}

/// The body: what follows the blank line, byte for byte.
pub open spec fn spec_body(req: Seq<u8>) -> Seq<u8> {
    let a = spec_after_first(req);
    let b = first_crlf2(a);
    if b < 0 || b + 4 > a.len() {
        Seq::empty()
    } else {
        a.skip(b + 4)
    }
}

/// The forwarded request line: rewritten to `METHOD path VERSION` when a
/// relative path is substituted, else the original line.
pub open spec fn spec_forward_first_line(req: Seq<u8>, rewrite: Option<Seq<u8>>) -> Seq<u8> {
    let fl = spec_first_line(req);
    match rewrite {
        Some(p) => {
            let m0 = spec_nth_token(fl, 0);
            let m = if m0.len() == 0 {
                utf8_of("GET"@)
            } else {
                m0
            };
            let v0 = spec_nth_token(fl, 2);
            let v = if v0.len() == 0 {
                utf8_of("HTTP/1.1"@)
            } else {
                v0
            };
            m + seq![32u8] + p + seq![32u8] + v + crlf()
        },
        None => fl + crlf(),
    }
}

/// The header lines that survive forwarding, in order.
pub open spec fn kept_header_lines(req: Seq<u8>) -> Seq<Seq<u8>> {
    split_crlf(spec_headers_raw(req)).filter(|l: Seq<u8>| header_kept(l))
}

/// The surviving headers, joined.
pub open spec fn spec_filtered_headers(req: Seq<u8>) -> Seq<u8> {
    join_crlf(kept_header_lines(req))
}

/// The whole forwarded request: the (possibly rewritten) request line, the
/// surviving headers, a closing `Connection: close` header, the blank
/// line, and the body unchanged.
pub open spec fn spec_prepare(req: Seq<u8>, rewrite: Option<Seq<u8>>) -> Seq<u8> {
    let f = spec_filtered_headers(req);
    let sep = if f.len() == 0 {
        Seq::<u8>::empty()
    } else {
        crlf()
    };
    spec_forward_first_line(req, rewrite) + f + sep + utf8_of("Connection: close"@) + crlf()
        + crlf() + spec_body(req)
}

/// Split a buffer at every `\r\n`.
fn split_crlf_exec(s: &[u8]) -> (r: Vec<Vec<u8>>)
    ensures
        r@.len() == split_crlf(s@).len(),
        forall|i: int| 0 <= i < r@.len() ==> (#[trigger] r@[i])@ == split_crlf(s@)[i],
{
    let mut out: Vec<Vec<u8>> = Vec::new();
    proof {
        assert(s@.skip(0) =~= s@);
        assert(split_crlf(s@).skip(0) =~= split_crlf(s@));
    }
    let mut pos: usize = 0;
    while pos <= s.len()
        invariant
            pos <= s@.len(),
            out@.len() <= pos,
            split_crlf(s@).len() == out@.len() + split_crlf(s@.skip(pos as int)).len(),
            split_crlf(s@).skip(out@.len() as int) == split_crlf(s@.skip(pos as int)),
            forall|i: int| 0 <= i < out@.len() ==> (#[trigger] out@[i])@ == split_crlf(s@)[i],
        decreases s@.len() - pos,
    {
        let ghost rest = s@.skip(pos as int);
        match find_crlf_from(s, pos) {
            Some(j) => {
                let line = copy_range(s, pos, j);
                proof {
                    assert(first_crlf(rest) == j - pos);
                    assert(rest.take(j - pos) =~= s@.subrange(pos as int, j as int));
                    assert(rest.skip(j - pos + 2) =~= s@.skip(j + 2));
                    assert(split_crlf(rest) == seq![rest.take(j - pos)] + split_crlf(
                        s@.skip(j + 2),
                    ));
                    assert((seq![rest.take(j - pos)] + split_crlf(s@.skip(j + 2)))[0]
                        == rest.take(j - pos));
                    assert((seq![rest.take(j - pos)] + split_crlf(s@.skip(j + 2))).skip(1)
                        =~= split_crlf(s@.skip(j + 2)));
                    assert(split_crlf(s@).skip(out@.len() as int)[0] == split_crlf(
                        s@,
                    )[out@.len() as int]);
                }
                out.push(line);
                pos = j + 2;
                proof {
                    assert(split_crlf(s@).skip(out@.len() as int) =~= split_crlf(
                        s@.skip(pos as int),
                    ));
                }
            },
            None => {
                let line = copy_range(s, pos, s.len());
                proof {
                    assert(first_crlf(rest) == -1);
                    assert(split_crlf(rest) =~= seq![rest]);
                    assert(rest =~= s@.subrange(pos as int, s@.len() as int));
                    assert(split_crlf(s@).skip(out@.len() as int)[0] == split_crlf(
                        s@,
                    )[out@.len() as int]);
                    assert(split_crlf(s@)[out@.len() as int] == rest);
                }
                out.push(line);
                proof {
                    assert(out@.len() == split_crlf(s@).len());
                }
                return out;
            },
        }
    }
    proof {
        assert(false);
    }
    out
}

/// Transform a request before forwarding it upstream: optionally rewrite
/// the request line to a relative path, drop `Proxy-Authorization` and
/// `Connection` headers, add `Connection: close`, and carry the body over
/// unchanged.
#[verifier::rlimit(100)]
#[verifier::spinoff_prover]
pub fn prepare_forward_request(request: &[u8], rewrite_path: Option<&Vec<u8>>) -> (r: Vec<u8>)
    ensures
        r@ == spec_prepare(
            request@,
            match rewrite_path {
                Some(p) => Some(p@),
                None => None,
            },
        ),
{
    let fl = first_line_vec(request);
    let mut out: Vec<u8> = Vec::new();
    match rewrite_path {
        Some(p) => {
            proof {
                assert(fl@.skip(0) =~= fl@);
            }
            match nth_token_range(fl.as_slice(), 0, 0) {
                Some(ab) => {
                    let mut m = copy_range(fl.as_slice(), ab.0, ab.1);
                    out.append(&mut m);
                },
                None => {
                    let mut m: Vec<u8> = Vec::new();
                    m.extend_from_slice("GET".as_bytes());
                    out.append(&mut m);
                },
            }
            out.push(32);
            let mut pth = copy_range(p.as_slice(), 0, p.len());
            out.append(&mut pth);
            out.push(32);
            match nth_token_range(fl.as_slice(), 0, 2) {
                Some(ab) => {
                    let mut v = copy_range(fl.as_slice(), ab.0, ab.1);
                    out.append(&mut v);
                },
                None => {
                    let mut v: Vec<u8> = Vec::new();
                    v.extend_from_slice("HTTP/1.1".as_bytes());
                    out.append(&mut v);
                },
            }
            out.push(13);
            out.push(10);
            proof {
                assert(p@.subrange(0, p@.len() as int) =~= p@);
                assert(out@ =~= spec_forward_first_line(request@, Some(p@)));
            }
        },
        None => {
            let mut f = copy_range(fl.as_slice(), 0, fl.len());
            out.append(&mut f);
            out.push(13);
            out.push(10);
            proof {
                assert(fl@.subrange(0, fl@.len() as int) =~= fl@);
                assert(out@ =~= spec_forward_first_line(request@, None));
            }
        },
    }
    let ghost new_first = out@;

    // headers and body
    proof {
        assert(request@.skip(0) =~= request@);
    }
    let rlen = request.len();
    let after: Vec<u8> = match find_crlf_from(request, 0) {
        Some(j) => {
            assert(j + 1 < rlen);
            let a = copy_range(request, j + 2, rlen);
            proof {
                assert(a@ =~= spec_after_first(request@));
            }
            a
        },
        None => {
            let a: Vec<u8> = Vec::new();
            proof {
                assert(a@ =~= spec_after_first(request@));
            }
            a
        },
    };
    proof {
        assert(after@.skip(0) =~= after@);
    }
    let alen = after.len();
    let (headers_raw, body): (Vec<u8>, Vec<u8>) = match find_crlf2_from(after.as_slice(), 0) {
        Some(b) => {
            let h = copy_range(after.as_slice(), 0, b);
            let bo = copy_range(after.as_slice(), b + 4, alen);
            proof {
                assert(h@ =~= spec_headers_raw(request@));
                assert(bo@ =~= spec_body(request@));
            }
            (h, bo)
        },
        None => {
            let h = copy_range(after.as_slice(), 0, alen);
            let bo: Vec<u8> = Vec::new();
            proof {
                assert(h@ =~= spec_headers_raw(request@));
                assert(bo@ =~= spec_body(request@));
            }
            (h, bo)
        },
    };

    // filter and join the header lines
    let lines = split_crlf_exec(headers_raw.as_slice());
    let ghost lines_spec = split_crlf(headers_raw@);
    let ghost keep = |l: Seq<u8>| header_kept(l);
    let mut joined: Vec<u8> = Vec::new();
    let mut any_kept = false;
    proof {
        reveal_with_fuel(Seq::filter, 2);
        assert(lines_spec.subrange(0, 0) =~= Seq::<Seq<u8>>::empty());
        assert(lines_spec.subrange(0, 0).filter(keep) =~= Seq::<Seq<u8>>::empty());
    }
    let mut li: usize = 0;
    while li < lines.len()
        invariant
            li <= lines@.len(),
            lines@.len() == lines_spec.len(),
            forall|i: int| 0 <= i < lines@.len() ==> (#[trigger] lines@[i])@ == lines_spec[i],
            keep == (|l: Seq<u8>| header_kept(l)),
            joined@ == join_crlf(lines_spec.subrange(0, li as int).filter(keep)),
            any_kept == (lines_spec.subrange(0, li as int).filter(keep).len() > 0),
        decreases lines@.len() - li,
    {
        proof {
            reveal_with_fuel(Seq::filter, 2);
            assert(lines_spec.subrange(0, li + 1).drop_last() =~= lines_spec.subrange(
                0,
                li as int,
            ));
            assert(lines_spec.subrange(0, li + 1).last() == lines_spec[li as int]);
        }
        let l = &lines[li];
        let is_kept = l.len() > 0 && !crate::bytes::bytes_starts_with_lower(
            l.as_slice(),
            "proxy-authorization:".as_bytes(),
        ) && !crate::bytes::bytes_starts_with_lower(l.as_slice(), "connection:".as_bytes());
        if is_kept {
            let ghost fs = lines_spec.subrange(0, li as int).filter(keep);
            if any_kept {
                joined.push(13);
                joined.push(10);
            }
            let mut lc = copy_range(l.as_slice(), 0, l.len());
            proof {
                assert(lc@ =~= l@);
                assert(l@ == lines_spec[li as int]);
            }
            joined.append(&mut lc);
            proof {
                let fs1 = lines_spec.subrange(0, li + 1).filter(keep);
                assert(fs1 =~= fs.push(lines_spec[li as int]));
                assert(fs1.drop_last() =~= fs);
                if fs.len() > 0 {
                    assert(join_crlf(fs1) == join_crlf(fs) + crlf() + lines_spec[li as int]);
                    assert(joined@ =~= join_crlf(fs1));
                } else {
                    assert(fs1.len() == 1);
                    assert(join_crlf(fs1) == fs1[0]);
                    assert(joined@ =~= join_crlf(fs1));
                }
            }
            any_kept = true;
        } else {
            proof {
                assert(lines_spec.subrange(0, li + 1).filter(keep) =~= lines_spec.subrange(
                    0,
                    li as int,
                ).filter(keep));
            }
        }
        li += 1;
    }
    proof {
        assert(lines_spec.subrange(0, lines_spec.len() as int) =~= lines_spec);
        assert(joined@ == spec_filtered_headers(request@)) by {
            assert(keep =~= (|l: Seq<u8>| header_kept(l)));
        }
    }

    // assemble
    let mut j2 = joined;
    let filtered_empty = j2.len() == 0;
    out.append(&mut j2);
    if !filtered_empty {
        out.push(13);
        out.push(10);
    }
    let mut closer: Vec<u8> = Vec::new();
    closer.extend_from_slice("Connection: close".as_bytes());
    out.append(&mut closer);
    out.push(13);
    out.push(10);
    out.push(13);
    out.push(10);
    let mut b2 = body;
    out.append(&mut b2);
    proof {
        assert(out@ =~= spec_prepare(
            request@,
            match rewrite_path {
                Some(p) => Some(p@),
                None => None,
            },
        ));
    }
    out
}

/// What the transformation promises a forwarded request: it starts with
/// the rewritten `METHOD path VERSION` line; none of its surviving header
/// lines names `Proxy-Authorization` or `Connection`; a `Connection:
/// close` header and the blank line stand before the body; and the body
/// is the original's, byte for byte.
pub proof fn lemma_forward_request_shape(req: Seq<u8>, path: Seq<u8>)
    ensures
        ({
            let out = spec_prepare(req, Some(path));
            let tail = utf8_of("Connection: close"@) + crlf() + crlf() + spec_body(req);
            &&& spec_starts_with(out, spec_forward_first_line(req, Some(path)))
            &&& spec_starts_with(
                spec_forward_first_line(req, Some(path)).skip(
                    spec_forward_method(spec_first_line(req)).len() as int,
                ),
                seq![32u8] + path + seq![32u8],
            )
            &&& forall|i: int|
                0 <= i < kept_header_lines(req).len() ==> header_kept(
                    #[trigger] kept_header_lines(req)[i],
                )
            &&& out.skip(out.len() - tail.len()) == tail
            &&& out.skip(out.len() - spec_body(req).len()) == spec_body(req)
        }),
{
    let out = spec_prepare(req, Some(path));
    let nf = spec_forward_first_line(req, Some(path));
    let tail = utf8_of("Connection: close"@) + crlf() + crlf() + spec_body(req);
    assert(spec_starts_with(out, nf)) by {
        assert(out.take(nf.len() as int) =~= nf);
    }
    let m = spec_forward_method(spec_first_line(req));
    assert(spec_starts_with(nf.skip(m.len() as int), seq![32u8] + path + seq![32u8])) by {
        assert(nf.skip(m.len() as int).take((seq![32u8] + path + seq![32u8]).len() as int)
            =~= seq![32u8] + path + seq![32u8]);
    }
    let pred = |l: Seq<u8>| header_kept(l);
    assert forall|i: int|
        0 <= i < kept_header_lines(req).len() implies header_kept(
        #[trigger] kept_header_lines(req)[i],
    ) by {
        split_crlf(spec_headers_raw(req)).lemma_filter_pred(pred, i);
    }
    assert(out.skip(out.len() - tail.len()) =~= tail);
    assert(out.skip(out.len() - spec_body(req).len()) =~= spec_body(req));
}

/// The method token the rewritten line starts with.
pub open spec fn spec_forward_method(fl: Seq<u8>) -> Seq<u8> {
    let m0 = spec_nth_token(fl, 0);
    if m0.len() == 0 {
        utf8_of("GET"@)
    } else {
        m0
    }
}

// ── response lines ──────────────────────────────────────────────────────

/// The reply to a malformed request.
pub fn response_bad_request() -> (r: Vec<u8>)
    ensures
        r@ == utf8_of("HTTP/1.1 400 Bad Request\r\n\r\n"@),
{
    let mut v: Vec<u8> = Vec::new();
    v.extend_from_slice("HTTP/1.1 400 Bad Request\r\n\r\n".as_bytes());
    v
}

/// The reply when the upstream dial fails.
pub fn response_bad_gateway() -> (r: Vec<u8>)
    ensures
        r@ == utf8_of("HTTP/1.1 502 Bad Gateway\r\n\r\n"@),
{
    let mut v: Vec<u8> = Vec::new();
    v.extend_from_slice("HTTP/1.1 502 Bad Gateway\r\n\r\n".as_bytes());
    v
}

/// The reply when the upstream dial times out.
pub fn response_gateway_timeout() -> (r: Vec<u8>)
    ensures
        r@ == utf8_of("HTTP/1.1 504 Gateway Timeout\r\n\r\n"@),
{
    let mut v: Vec<u8> = Vec::new();
    v.extend_from_slice("HTTP/1.1 504 Gateway Timeout\r\n\r\n".as_bytes());
    v
}

/// The reply once a CONNECT tunnel stands.
pub fn response_connection_established() -> (r: Vec<u8>)
    ensures
        r@ == utf8_of("HTTP/1.1 200 Connection Established\r\n\r\n"@),
{
    let mut v: Vec<u8> = Vec::new();
    v.extend_from_slice("HTTP/1.1 200 Connection Established\r\n\r\n".as_bytes());
    v
}

/// The authentication challenge, naming the configured realm.
pub fn response_auth_required(realm: &String) -> (r: Vec<u8>)
    ensures
        r@ == utf8_of("HTTP/1.1 407 Proxy Authentication Required\r\nProxy-Authenticate: Basic realm=\""@)
            + utf8_of(realm@) + utf8_of("\"\r\nContent-Length: 0\r\n\r\n"@),
{
    let mut v: Vec<u8> = Vec::new();
    v.extend_from_slice(
        "HTTP/1.1 407 Proxy Authentication Required\r\nProxy-Authenticate: Basic realm=\"".as_bytes(),
    );
    v.extend_from_slice(string_bytes(realm));
    v.extend_from_slice("\"\r\nContent-Length: 0\r\n\r\n".as_bytes());
    v
}

/// Copy `s[a..b]` into an owned vector.
fn copy_range(s: &[u8], a: usize, b: usize) -> (r: Vec<u8>)
    requires
        a <= b <= s@.len(),
    ensures
        r@ == s@.subrange(a as int, b as int),
{
    let mut out: Vec<u8> = Vec::new();
    let mut i = a;
    while i < b
        invariant
            a <= i <= b <= s@.len(),
            out@ == s@.subrange(a as int, i as int),
        decreases b - i,
    {
        out.push(s[i]);
        i += 1;
        assert(out@ =~= s@.subrange(a as int, i as int));
    }
    out
}

} // verus!
