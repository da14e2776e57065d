//! Decimal rendering and parsing, human-readable durations and byte counts,
//! and random session identifiers.

use vstd::prelude::*;
use crate::bytes::utf8_of;

verus! {

/// The ASCII digits of `n`, most significant first.
pub open spec fn spec_decimal(n: nat) -> Seq<u8>
    decreases n,
{
    if n < 10 {
        seq![(48 + n) as u8]
    } else {
        spec_decimal(n / 10).push((48 + n % 10) as u8)
    }
}

/// Render `n` in decimal as ASCII digit bytes.
pub fn decimal_bytes(n: u64) -> (r: Vec<u8>)
    ensures
        r@ == spec_decimal(n as nat),
    decreases n,
{
    if n < 10 {
        let mut v: Vec<u8> = Vec::new();
        v.push(48 + n as u8);
        assert(v@ =~= spec_decimal(n as nat));
        v
    } else {
        let mut v = decimal_bytes(n / 10);
        v.push(48 + (n % 10) as u8);
        v
    }
}

/// Relies on `String::from_utf8`: decoding ASCII bytes yields exactly those
/// code points, so re-encoding the result gives the input back.
#[verifier::external_body]
pub(crate) fn ascii_to_string(v: Vec<u8>) -> (r: String)
    requires
        forall|i: int| 0 <= i < v@.len() ==> v@[i] < 128,
    ensures
        utf8_of(r@) == v@,
        r@.len() == v@.len(),
{
    match String::from_utf8(v) {
        Ok(s) => s,
        Err(_) => String::new(),
    }
}

/// All digits are below 128, so a rendered number can become a `String`.
pub proof fn lemma_decimal_ascii(n: nat)
    ensures
        forall|i: int| 0 <= i < spec_decimal(n).len() ==> #[trigger] spec_decimal(n)[i] < 128,
    decreases n,
{
    if n < 10 {
        assert(spec_decimal(n) =~= seq![(48 + n) as u8]);
    } else {
        lemma_decimal_ascii(n / 10);
        let s = spec_decimal(n);
        assert forall|i: int| 0 <= i < s.len() implies s[i] < 128 by {
            if i < s.len() - 1 {
                assert(s[i] == spec_decimal(n / 10)[i]);
            } else {
                assert(s[i] == (48 + n % 10) as u8);
            }
        }
    }
}

/// Render `n` in decimal as a `String`.
pub fn decimal_string(n: u64) -> (r: String)
    ensures
        utf8_of(r@) == spec_decimal(n as nat),
{
    let v = decimal_bytes(n);
    proof {
        lemma_decimal_ascii(n as nat);
    }
    ascii_to_string(v)
}

/// The value of a run of ASCII digits, most significant first.
pub open spec fn digits_value(s: Seq<u8>) -> int
    decreases s.len(),
{
    if s.len() == 0 {
        0
    } else {
        digits_value(s.drop_last()) * 10 + (s.last() - 48)
    }
}

pub open spec fn all_digits(s: Seq<u8>) -> bool {
    forall|i: int| 0 <= i < s.len() ==> 48 <= #[trigger] s[i] <= 57
}

/// A longer digit prefix never has a smaller value.
proof fn lemma_digits_value_monotone(s: Seq<u8>, i: int, j: int)
    requires
        all_digits(s),
        0 <= i <= j <= s.len(),
    ensures
        digits_value(s.subrange(0, i)) <= digits_value(s.subrange(0, j)),
    decreases j - i,
{
    if i < j {
        lemma_digits_value_monotone(s, i, j - 1);
        let p = s.subrange(0, j);
        assert(p.drop_last() =~= s.subrange(0, j - 1));
        assert(all_digits(s.subrange(0, j - 1)));
        assert(digits_value(p.drop_last()) >= 0) by {
            lemma_digits_value_nonneg(s.subrange(0, j - 1));
        }
    }
}

proof fn lemma_digits_value_nonneg(s: Seq<u8>)
    requires
        all_digits(s),
    ensures
        digits_value(s) >= 0,
    decreases s.len(),
{
    if s.len() > 0 {
        assert(all_digits(s.drop_last())) by {
            assert(forall|i: int|
                0 <= i < s.len() - 1 ==> s.drop_last()[i] == #[trigger] s[i]);
        }
        lemma_digits_value_nonneg(s.drop_last());
    }
}

/// Parse an unsigned decimal port number. `None` exactly when the input is
/// empty, holds a non-digit, or exceeds 65535.
pub fn parse_u16_dec(s: &[u8]) -> (r: Option<u16>)
    ensures
        r.is_some() <==> (s@.len() > 0 && all_digits(s@) && digits_value(s@) <= 65535),
        r matches Some(v) ==> v == digits_value(s@),
{
    if s.len() == 0 {
        return None;
    }
    let mut acc: u32 = 0;
    let mut i: usize = 0;
    while i < s.len()
        invariant
            0 <= i <= s@.len(),
            all_digits(s@.subrange(0, i as int)),
            acc == digits_value(s@.subrange(0, i as int)),
            acc <= 65535,
        decreases s.len() - i,
    {
        let b = s[i];
        if b < 48 || b > 57 {
            assert(!all_digits(s@));
            return None;
        }
        let ghost pre = s@.subrange(0, i as int);
        acc = acc * 10 + (b - 48) as u32;
        i += 1;
        assert(s@.subrange(0, i as int).drop_last() =~= pre);
        if acc > 65535 {
            proof {
                if all_digits(s@) {
                    lemma_digits_value_monotone(s@, i as int, s@.len() as int);
                    assert(s@.subrange(0, s@.len() as int) =~= s@);
                }
            }
            return None;
        }
    }
    assert(s@.subrange(0, s@.len() as int) =~= s@);
    Some(acc as u16)
}

/// Two-digit zero-padded decimal, for fractional parts.
pub open spec fn spec_decimal2(n: nat) -> Seq<u8> {
    if n < 10 {
        seq![48u8] + spec_decimal(n)
    } else {
        spec_decimal(n)
    }
}

fn decimal2_bytes(n: u64) -> (r: Vec<u8>)
    requires
        n < 100,
    ensures
        r@ == spec_decimal2(n as nat),
{
    if n < 10 {
        let mut v: Vec<u8> = Vec::new();
        v.push(48);
        let mut d = decimal_bytes(n);
        v.append(&mut d);
        assert(v@ =~= spec_decimal2(n as nat));
        v
    } else {
        decimal_bytes(n)
    }
}

pub const KB: u64 = 1024;
pub const MB: u64 = 1024 * 1024;
pub const GB: u64 = 1024 * 1024 * 1024;

/// `n` scaled by `unit` with two decimal places, rounded to nearest:
/// whole part, a dot, and a zero-padded two-digit fraction.
pub open spec fn spec_scaled2(n: nat, unit: nat) -> Seq<u8>
    recommends
        unit > 0,
{
    let hundredths = (n * 100 + unit / 2) / unit;
    spec_decimal(hundredths / 100) + seq![46u8] + spec_decimal2(hundredths % 100)
}

fn scaled2_bytes(n: u64, unit: u64) -> (r: Vec<u8>)
    requires
        unit >= 1024,
    ensures
        r@ == spec_scaled2(n as nat, unit as nat),
{
    let hundredths_wide: u128 = ((n as u128) * 100 + (unit / 2) as u128) / (unit as u128);
    proof {
        let x = (n as int) * 100 + (unit as int) / 2;
        vstd::arithmetic::div_mod::lemma_div_is_ordered_by_denominator(x, 1024, unit as int);
        assert(x / 1024 <= u64::MAX);
    }
    let hundredths: u64 = hundredths_wide as u64;
    let mut v = decimal_bytes(hundredths / 100);
    v.push(46);
    let mut f = decimal2_bytes(hundredths % 100);
    v.append(&mut f);
    assert(v@ =~= spec_scaled2(n as nat, unit as nat));
    v
}

/// The rendering `format_bytes` produces: a two-decimal quantity and a unit
/// suffix, chosen by magnitude.
pub open spec fn spec_format_bytes(n: nat) -> Seq<u8> {
    if n >= GB {
        spec_scaled2(n, GB as nat) + seq![32u8, 71u8, 66u8]
    } else if n >= MB {
        spec_scaled2(n, MB as nat) + seq![32u8, 77u8, 66u8]
    } else if n >= KB {
        spec_scaled2(n, KB as nat) + seq![32u8, 75u8, 66u8]
    } else {
        spec_decimal(n) + seq![32u8, 66u8]
    }
}

/// Render a byte count with a binary unit: `"1.50 KB"`, `"2.00 MB"`,
/// `"512 B"`.
pub fn format_bytes(bytes: u64) -> (r: String)
    ensures
        utf8_of(r@) == spec_format_bytes(bytes as nat),
{
    let mut v: Vec<u8>;
    if bytes >= GB {
        v = scaled2_bytes(bytes, GB);
        v.push(32);
        v.push(71);
        v.push(66);
    } else if bytes >= MB {
        v = scaled2_bytes(bytes, MB);
        v.push(32);
        v.push(77);
        v.push(66);
    } else if bytes >= KB {
        v = scaled2_bytes(bytes, KB);
        v.push(32);
        v.push(75);
        v.push(66);
    } else {
        v = decimal_bytes(bytes);
        v.push(32);
        v.push(66);
    }
    assert(v@ =~= spec_format_bytes(bytes as nat));
    proof {
        lemma_format_bytes_ascii(bytes as nat);
    }
    ascii_to_string(v)
}

proof fn lemma_scaled2_ascii(n: nat, unit: nat)
    ensures
        forall|i: int|
            0 <= i < spec_scaled2(n, unit).len() ==> #[trigger] spec_scaled2(n, unit)[i] < 128,
{
    let hundredths = (n * 100 + unit / 2) / unit;
    lemma_decimal_ascii(hundredths / 100);
    lemma_decimal_ascii(hundredths % 100);
}

proof fn lemma_format_bytes_ascii(n: nat)
    ensures
        forall|i: int|
            0 <= i < spec_format_bytes(n).len() ==> #[trigger] spec_format_bytes(n)[i] < 128,
{
    lemma_decimal_ascii(n);
    lemma_scaled2_ascii(n, GB as nat);
    lemma_scaled2_ascii(n, MB as nat);
    lemma_scaled2_ascii(n, KB as nat);
}

/// One-decimal seconds with rounding to nearest tenth: `"12.3"`.
pub open spec fn spec_secs1(ms: nat) -> Seq<u8> {
    let tenths = (ms + 50) / 100;
    spec_decimal(tenths / 10) + seq![46u8] + spec_decimal(tenths % 10)
}

fn secs1_bytes(ms: u64) -> (r: Vec<u8>)
    requires
        ms <= 0xFFFF_FFFF,
    ensures
        r@ == spec_secs1(ms as nat),
{
    let tenths = (ms + 50) / 100;
    let mut v = decimal_bytes(tenths / 10);
    v.push(46);
    let mut f = decimal_bytes(tenths % 10);
    v.append(&mut f);
    assert(v@ =~= spec_secs1(ms as nat));
    v
}

/// The rendering `format_duration` produces: hours, minutes and one-decimal
/// seconds, with the larger units omitted while they are zero.
pub open spec fn spec_format_duration(ms: nat) -> Seq<u8> {
    let secs = ms / 1000;
    if secs >= 3600 {
        spec_decimal(secs / 3600) + seq![104u8, 32u8] + spec_decimal((secs % 3600) / 60) + seq![
            109u8,
            32u8,
        ] + spec_secs1((secs % 60) * 1000 + ms % 1000) + seq![115u8]
    } else if secs >= 60 {
        spec_decimal(secs / 60) + seq![109u8, 32u8] + spec_secs1((secs % 60) * 1000 + ms % 1000)
            + seq![115u8]
    } else {
        spec_secs1(ms) + seq![115u8]
    }
}

/// Render a duration: `"1h 2m 3.5s"`, `"4m 0.2s"`, `"7.0s"`.
pub fn format_duration(duration_ms: u64) -> (r: String)
    requires
        duration_ms / 1000 < 60 ==> duration_ms <= 0xFFFF_FFFF,
    ensures
        utf8_of(r@) == spec_format_duration(duration_ms as nat),
{
    let secs = duration_ms / 1000;
    let mut v: Vec<u8>;
    if secs >= 3600 {
        v = decimal_bytes(secs / 3600);
        v.push(104);
        v.push(32);
        let mut m = decimal_bytes((secs % 3600) / 60);
        v.append(&mut m);
        v.push(109);
        v.push(32);
        let mut s = secs1_bytes((secs % 60) * 1000 + duration_ms % 1000);
        v.append(&mut s);
        v.push(115);
    } else if secs >= 60 {
        v = decimal_bytes(secs / 60);
        v.push(109);
        v.push(32);
        let mut s = secs1_bytes((secs % 60) * 1000 + duration_ms % 1000);
        v.append(&mut s);
        v.push(115);
    } else {
        v = secs1_bytes(duration_ms);
        v.push(115);
    }
    assert(v@ =~= spec_format_duration(duration_ms as nat));
    proof {
        lemma_format_duration_ascii(duration_ms as nat);
    }
    ascii_to_string(v)
}

proof fn lemma_secs1_ascii(ms: nat)
    ensures
        forall|i: int| 0 <= i < spec_secs1(ms).len() ==> #[trigger] spec_secs1(ms)[i] < 128,
{
    let tenths = (ms + 50) / 100;
    lemma_decimal_ascii(tenths / 10);
    lemma_decimal_ascii(tenths % 10);
}

proof fn lemma_format_duration_ascii(ms: nat)
    ensures
        forall|i: int|
            0 <= i < spec_format_duration(ms).len() ==> #[trigger] spec_format_duration(ms)[i]
                < 128,
{
    let secs = ms / 1000;
    lemma_decimal_ascii(secs / 3600);
    lemma_decimal_ascii((secs % 3600) / 60);
    lemma_decimal_ascii(secs / 60);
    lemma_secs1_ascii((secs % 60) * 1000 + ms % 1000);
    lemma_secs1_ascii(ms);
}

/// UTF-8 encoding distributes over concatenation.
pub proof fn lemma_utf8_concat(a: Seq<char>, b: Seq<char>)
    ensures
        utf8_of(a + b) == utf8_of(a) + utf8_of(b),
    decreases a.len(),
{
    if a.len() == 0 {
        assert(a + b =~= b);
        assert(utf8_of(a) =~= Seq::<u8>::empty());
        assert(utf8_of(a) + utf8_of(b) =~= utf8_of(b));
    } else {
        assert((a + b).drop_first() =~= a.drop_first() + b);
        lemma_utf8_concat(a.drop_first(), b);
        assert(utf8_of(a + b) =~= utf8_of(a) + utf8_of(b));
    }
}

/// The bytes of `"addr:port"`: the address, a colon, the port in decimal.
pub open spec fn endpoint_utf8(addr: Seq<char>, port: u16) -> Seq<u8> {
    utf8_of(addr) + seq![58u8] + spec_decimal(port as nat)
}

/// Render an `address:port` endpoint string.
pub fn make_endpoint(addr: &String, port: u16) -> (r: String)
    ensures
        utf8_of(r@) == endpoint_utf8(addr@, port),
{
    let mut s = addr.clone();
    s.append(":");
    let p = decimal_string(port as u64);
    s.append(p.as_str());
    proof {
        reveal_strlit(":");
        assert(":"@ =~= seq![':']);
        assert(vstd::utf8::is_ascii_chars(":"@));
        vstd::utf8::is_ascii_chars_encode_utf8(":"@);
        assert(utf8_of(":"@) =~= seq![58u8]);
        lemma_utf8_concat(addr@, ":"@);
        lemma_utf8_concat(addr@ + ":"@, p@);
        assert(s@ =~= (addr@ + ":"@) + p@);
        assert(utf8_of(s@) =~= endpoint_utf8(addr@, port));
    }
    s
}

/// Relies on `rand::random_range`: a sample in `0..n`; it panics only on an
/// empty range, which the precondition rules out.
#[verifier::external_body]
pub(crate) fn random_below(n: usize) -> (r: usize)
    requires
        n > 0,
    ensures
        r < n,
{
    rand::random_range(0..n)
}

/// The 62-character alphanumeric alphabet used for session identifiers.
pub open spec fn spec_charset(i: int) -> u8 {
    if i < 26 {
        (65 + i) as u8
    } else if i < 52 {
        (97 + (i - 26)) as u8
    } else {
        (48 + (i - 52)) as u8
    }
}

fn charset_byte(i: usize) -> (r: u8)
    requires
        i < 62,
    ensures
        r == spec_charset(i as int),
{
    if i < 26 {
        65 + i as u8
    } else if i < 52 {
        97 + (i as u8 - 26)
    } else {
        48 + (i as u8 - 52)
    }
}

/// Whether a byte is in the session-identifier alphabet.
pub open spec fn charset_member(b: u8) -> bool {
    (65 <= b <= 90) || (97 <= b <= 122) || (48 <= b <= 57)
}

/// A fresh 32-character alphanumeric session identifier.
pub fn generate_session_id() -> (r: String)
    ensures
        r@.len() == 32,
        forall|i: int|
            0 <= i < utf8_of(r@).len() ==> charset_member(#[trigger] utf8_of(r@)[i]),
{
    let mut v: Vec<u8> = Vec::new();
    let mut k: usize = 0;
    while k < 32
        invariant
            k <= 32,
            v@.len() == k,
            forall|i: int| 0 <= i < v@.len() ==> charset_member(#[trigger] v@[i]),
        decreases 32 - k,
    {
        let idx = random_below(62);
        v.push(charset_byte(idx));
        k += 1;
    }
    ascii_to_string(v)
}

} // verus!
