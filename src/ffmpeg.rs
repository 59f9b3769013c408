//! Reading what the media tools report: silence announcements and durations.
use vstd::prelude::*;
use vstd::slice::slice_subrange;
use crate::config::{TIME_LIMIT, in_limit};

verus! {

/// A stretch of the timeline judged silent, from `start` to `end`.
#[derive(Clone, Copy, Debug, PartialEq, Eq)]
pub struct SilenceSegment {
    pub start: i64,
    pub end: i64,
}

pub open spec fn is_digit(b: u8) -> bool {
    48 <= b <= 57
}

/// Space, tab, line feed, vertical tab, form feed or carriage return.
pub open spec fn is_space(b: u8) -> bool {
    b == 32 || (9 <= b <= 13)
}

/// Index where the run of digits of `s` that starts at `i` ends.
pub open spec fn digit_run(s: Seq<u8>, i: int) -> int
    decreases s.len() - i,
{
    if 0 <= i < s.len() && is_digit(s[i]) {
        digit_run(s, i + 1)
    } else {
        i
    }
}

/// Index of the first non-space of `s` in `[i, end)`, or `end`.
pub open spec fn skip_space(s: Seq<u8>, i: int, end: int) -> int
    decreases end - i,
{
    if 0 <= i < end && i < s.len() && is_space(s[i]) {
        skip_space(s, i + 1, end)
    } else {
        i
    }
}

/// End of `s[lo..j]` once trailing spaces are removed.
pub open spec fn trim_back(s: Seq<u8>, lo: int, j: int) -> int
    decreases j - lo,
{
    if lo < j && 0 < j <= s.len() && is_space(s[j - 1]) {
        trim_back(s, lo, j - 1)
    } else {
        j
    }
}

/// Index of the first `b` of `s` in `[i, end)`, or `end`.
pub open spec fn find_from(s: Seq<u8>, b: u8, i: int, end: int) -> int
    decreases end - i,
{
    if 0 <= i < end && i < s.len() && s[i] != b {
        find_from(s, b, i + 1, end)
    } else {
        i
    }
}

/// The number written in decimal digits.
pub open spec fn digits_value(s: Seq<u8>) -> int
    decreases s.len(),
{
    if s.len() == 0 {
        0
    } else {
        digits_value(s.drop_last()) * 10 + (s.last() - 48)
    }
}

pub open spec fn digit_or_zero(s: Seq<u8>, k: int) -> int {
    if 0 <= k < s.len() {
        s[k] - 48
    } else {
        0
    }
}

/// The first `n` digits of `s` as a number, absent digits read as zeros.
pub open spec fn padded_value(s: Seq<u8>, n: nat) -> int
    decreases n,
{
    if n == 0 {
        0
    } else {
        padded_value(s, (n - 1) as nat) * 10 + digit_or_zero(s, n - 1)
    }
}

pub open spec fn signed(neg: bool, x: int) -> int {
    if neg {
        -x
    } else {
        x
    }
}

/// The exponent part that starts at index `r`: nothing at the end of `s`,
/// else `e` or `E`, an optional sign and at least one digit ending `s`.
pub open spec fn exponent_at(s: Seq<u8>, r: int) -> Option<int> {
    let n = s.len() as int;
    if r == n {
        Some(0)
    } else if 0 <= r < n && (s[r] == 101 || s[r] == 69) {
        let signed_exp = r + 1 < n && (s[r + 1] == 43 || s[r + 1] == 45);
        let b = if signed_exp { r + 2 } else { r + 1 };
        let t = digit_run(s, b);
        if t == n && t > b {
            Some(signed(signed_exp && s[r + 1] == 45, digits_value(s.subrange(b, t))))
        } else {
            None
        }
    } else {
        None
    }
}

/// The digits `s[a..p]` followed by `s[fs..q]`.
pub open spec fn mantissa(s: Seq<u8>, a: int, p: int, fs: int, q: int) -> Seq<u8> {
    s.subrange(a, p) + s.subrange(fs, q)
}

/// The first `l` digits of `m` as a number, absent digits read as zeros.
pub open spec fn scaled(m: Seq<u8>, l: int) -> int {
    if l <= 0 {
        0
    } else {
        padded_value(m, l as nat)
    }
}

/// Seconds written `[+-]digits[.digits][(e|E)[+-]digits]`, with at least one
/// digit before the exponent, as microseconds. The digits are read with the
/// decimal point moved by the exponent and by six places; digits past the
/// microsecond are dropped.
pub open spec fn decimal_us(s: Seq<u8>) -> Option<int> {
    let n = s.len() as int;
    let a: int = if n > 0 && (s[0] == 45 || s[0] == 43) { 1 } else { 0 };
    let p = digit_run(s, a);
    let dot = p < n && s[p] == 46;
    let fs = if dot { p + 1 } else { p };
    let q = if dot { digit_run(s, p + 1) } else { p };
    let m = mantissa(s, a, p, fs, q);
    if m.len() == 0 {
        None
    } else {
        match exponent_at(s, q) {
            Some(e) => Some(signed(a == 1 && s[0] == 45, scaled(m, (p - a) + 6 + e))),
            None => None,
        }
    }
}

/// A decimal time in seconds, as microseconds within the accepted magnitude.
pub open spec fn timestamp_us(s: Seq<u8>) -> Option<int> {
    match decimal_us(s) {
        Some(v) => if in_limit(v, 1) { Some(v) } else { None },
        None => None,
    }
}

pub open spec fn opt_int(o: Option<i64>) -> Option<int> {
    match o {
        Some(v) => Some(v as int),
        None => None,
    }
}

proof fn lemma_padded_grows(m: Seq<u8>, i: nat, j: nat)
    requires
        i <= j,
        forall|k: int| 0 <= k < m.len() ==> is_digit(#[trigger] m[k]),
    ensures
        0 <= padded_value(m, i) <= padded_value(m, j),
    decreases j,
{
    if j > 0 {
        if i < j {
            lemma_padded_grows(m, i, (j - 1) as nat);
        } else {
            lemma_padded_grows(m, (j - 1) as nat, (j - 1) as nat);
        }
    }
}

proof fn lemma_padded_zero(m: Seq<u8>, j: nat)
    requires
        forall|k: int| 0 <= k < m.len() ==> #[trigger] m[k] == 48,
    ensures
        padded_value(m, j) == 0,
    decreases j,
{
    if j > 0 {
        lemma_padded_zero(m, (j - 1) as nat);
    }
}

proof fn lemma_padded_linear(m: Seq<u8>, j: nat, k: nat)
    requires
        padded_value(m, j) >= 1,
        forall|i: int| 0 <= i < m.len() ==> is_digit(#[trigger] m[i]),
    ensures
        padded_value(m, j + k) >= 1 + k,
    decreases k,
{
    if k > 0 {
        lemma_padded_linear(m, j, (k - 1) as nat);
        assert(padded_value(m, j + k) == padded_value(m, (j + k - 1) as nat) * 10 + digit_or_zero(m, j + k - 1));
    }
}

fn digit_run_end(s: &[u8], i: usize) -> (r: usize)
    requires
        i <= s@.len(),
    ensures
        r == digit_run(s@, i as int),
        i <= r <= s@.len(),
        forall|k: int| i <= k < r ==> is_digit(#[trigger] s@[k]),
{
    let mut j = i;
    while j < s.len() && 48 <= s[j] && s[j] <= 57
        invariant
            i <= j <= s@.len(),
            digit_run(s@, j as int) == digit_run(s@, i as int),
            forall|k: int| i <= k < j ==> is_digit(#[trigger] s@[k]),
        decreases s@.len() - j,
    {
        j = j + 1;
    }
    j
}

/// Byte `k` of the digits `s[a..p]` followed by `s[fs..q]`.
fn mantissa_byte(s: &[u8], a: usize, p: usize, fs: usize, q: usize, k: usize) -> (r: u8)
    requires
        a <= p <= fs <= q <= s@.len(),
        k < (p - a) + (q - fs),
    ensures
        r == mantissa(s@, a as int, p as int, fs as int, q as int)[k as int],
{
    if k < p - a {
        s[a + k]
    } else {
        s[fs + (k - (p - a))]
    }
}

/// Largest exponent magnitude read exactly; beyond it only the sign matters.
const EXPONENT_CAP: i128 = 100_000_000_000_000_000_000;

/// The exponent part at `r`: `None` when malformed, else whether it is
/// beyond the cap, and its value when it is not.
fn read_exponent(s: &[u8], r: usize) -> (res: Option<(bool, i128)>)
    requires
        r <= s@.len(),
    ensures
        res.is_none() == exponent_at(s@, r as int).is_none(),
        res matches Some((beyond, v)) ==> {
            let e = exponent_at(s@, r as int).unwrap();
            &&& !beyond ==> e == v as int && -EXPONENT_CAP <= v <= EXPONENT_CAP
            &&& beyond ==> (v == 1 && e > EXPONENT_CAP) || (v == -1 && e < -EXPONENT_CAP)
        },
{
    let n = s.len();
    if r == n {
        return Some((false, 0));
    }
    if !(s[r] == 101 || s[r] == 69) {
        return None;
    }
    let signed_exp = r + 1 < n && (s[r + 1] == 43 || s[r + 1] == 45);
    let neg = signed_exp && s[r + 1] == 45;
    let b = if signed_exp { r + 2 } else { r + 1 };
    let t = digit_run_end(s, b);
    if !(t == n && t > b) {
        return None;
    }
    let mut v: i128 = 0;
    let mut beyond = false;
    let mut j: usize = b;
    while j < t
        invariant
            b <= j <= t <= s@.len(),
            forall|k: int| b <= k < t ==> is_digit(#[trigger] s@[k]),
            !beyond ==> v == digits_value(s@.subrange(b as int, j as int)) && 0 <= v <= EXPONENT_CAP,
            beyond ==> digits_value(s@.subrange(b as int, j as int)) > EXPONENT_CAP,
        decreases t - j,
    {
        assert(s@.subrange(b as int, j + 1).drop_last() =~= s@.subrange(b as int, j as int));
        assert(is_digit(s@[j as int]));
        if !beyond {
            let next = v * 10 + (s[j] - 48) as i128;
            if next > EXPONENT_CAP {
                beyond = true;
            } else {
                v = next;
            }
        }
        j = j + 1;
    }
    if beyond {
        Some((true, if neg { -1 } else { 1 }))
    } else {
        Some((false, if neg { -v } else { v }))
    }
}

fn first_nonzero(s: &[u8], a: usize, p: usize, fs: usize, q: usize) -> (z: usize)
    requires
        a <= p <= fs <= q <= s@.len(),
    ensures
        z <= mantissa(s@, a as int, p as int, fs as int, q as int).len(),
        forall|k: int| 0 <= k < z ==> #[trigger] mantissa(s@, a as int, p as int, fs as int, q as int)[k] == 48,
        z < mantissa(s@, a as int, p as int, fs as int, q as int).len() ==>
            mantissa(s@, a as int, p as int, fs as int, q as int)[z as int] != 48,
{
    let ghost m = mantissa(s@, a as int, p as int, fs as int, q as int);
    let nd = (p - a) + (q - fs);
    let mut z: usize = 0;
    while z < nd && mantissa_byte(s, a, p, fs, q, z) == 48
        invariant
            z <= nd,
            nd == m.len(),
            a <= p <= fs <= q <= s@.len(),
            m == mantissa(s@, a as int, p as int, fs as int, q as int),
            forall|k: int| 0 <= k < z ==> #[trigger] m[k] == 48,
        decreases nd - z,
    {
        z = z + 1;
    }
    z
}

/// `scaled(m, l)` for the mantissa `m` of `s[a..p]`, `s[fs..q]` when it is
/// at most the accepted magnitude, else `None`; `l` moves the decimal point
/// by the exponent read at `q` and by six places.
fn scaled_value(s: &[u8], a: usize, p: usize, fs: usize, q: usize, z: usize, beyond: bool, e: i128) -> (r: Option<i64>)
    requires
        a <= p <= fs <= q <= s@.len(),
        forall|k: int| 0 <= k < mantissa(s@, a as int, p as int, fs as int, q as int).len() ==>
            is_digit(#[trigger] mantissa(s@, a as int, p as int, fs as int, q as int)[k]),
        z < mantissa(s@, a as int, p as int, fs as int, q as int).len(),
        mantissa(s@, a as int, p as int, fs as int, q as int)[z as int] != 48,
        exponent_at(s@, q as int) is Some,
        !beyond ==> exponent_at(s@, q as int).unwrap() == e as int && -EXPONENT_CAP <= e <= EXPONENT_CAP,
        beyond ==> (e == 1 && exponent_at(s@, q as int).unwrap() > EXPONENT_CAP)
            || (e == -1 && exponent_at(s@, q as int).unwrap() < -EXPONENT_CAP),
    ensures
        ({
            let v = scaled(mantissa(s@, a as int, p as int, fs as int, q as int),
                (p - a) + 6 + exponent_at(s@, q as int).unwrap());
            match r {
                Some(x) => x == v && 0 <= v <= TIME_LIMIT,
                None => v > TIME_LIMIT,
            }
        }),
{
    let ghost m = mantissa(s@, a as int, p as int, fs as int, q as int);
    let ghost ev = exponent_at(s@, q as int).unwrap();
    let ip = p - a;
    let nd = ip + (q - fs);
    proof {
        lemma_padded_grows(m, 0, z as nat);
        assert(padded_value(m, (z + 1) as nat) == padded_value(m, z as nat) * 10 + digit_or_zero(m, z as int));
    }
    if beyond {
        if e < 0 {
            return Some(0);
        }
        let n = s.len();
        proof {
            let l = ip + 6 + ev;
            assert(z < n);
            assert(l - z > TIME_LIMIT);
            lemma_padded_linear(m, (z + 1) as nat, (l - z - 1) as nat);
            assert(((z + 1) as nat + (l - z - 1) as nat) as nat == l as nat);
            assert(padded_value(m, l as nat) >= l - z);
            assert(scaled(m, l) > TIME_LIMIT);
        }
        return None;
    }
    let l: i128 = ip as i128 + 6 + e;
    if l <= 0 {
        return Some(0);
    }
    let mut acc: i64 = 0;
    let mut i: i128 = 0;
    while i < l
        invariant
            0 <= i <= l,
            l == ip + 6 + ev,
            ev == exponent_at(s@, q as int).unwrap(),
            nd == m.len(),
            ip == p - a,
            a <= p <= fs <= q <= s@.len(),
            m == mantissa(s@, a as int, p as int, fs as int, q as int),
            forall|k: int| 0 <= k < m.len() ==> is_digit(#[trigger] m[k]),
            acc == padded_value(m, i as nat),
            0 <= acc <= TIME_LIMIT,
        decreases l - i,
    {
        let d: i64 = if i < nd as i128 {
            let b = mantissa_byte(s, a, p, fs, q, i as usize);
            assert(is_digit(m[i as int]));
            (b - 48) as i64
        } else {
            0
        };
        let next = acc * 10 + d;
        assert(next == padded_value(m, (i + 1) as nat));
        if next > TIME_LIMIT {
            proof {
                lemma_padded_grows(m, (i + 1) as nat, l as nat);
                assert(scaled(m, l as int) == padded_value(m, l as nat));
            }
            return None;
        }
        acc = next;
        i = i + 1;
    }
    Some(acc)
}

/// Reads seconds written `[+-]digits[.digits][(e|E)[+-]digits]` as
/// microseconds; `None` when the text is not of that form or the time is
/// beyond the accepted magnitude.
pub fn parse_seconds(s: &[u8]) -> (r: Option<i64>)
    ensures
        opt_int(r) == timestamp_us(s@),
{
    let n = s.len();
    let a: usize = if n > 0 && (s[0] == 45 || s[0] == 43) { 1 } else { 0 };
    let neg = a == 1 && s[0] == 45;
    let p = digit_run_end(s, a);
    let dot = p < n && s[p] == 46;
    let fs = if dot { p + 1 } else { p };
    let q = if dot { digit_run_end(s, p + 1) } else { p };
    let nd = (p - a) + (q - fs);
    let ghost m = mantissa(s@, a as int, p as int, fs as int, q as int);
    assert forall|k: int| 0 <= k < m.len() implies is_digit(#[trigger] m[k]) by {
        if k < p - a {
            assert(m[k] == s@[a + k]);
        } else {
            assert(m[k] == s@[fs + (k - (p - a))]);
        }
    }
    if nd == 0 {
        return None;
    }
    let (beyond, e) = match read_exponent(s, q) {
        Some(x) => x,
        None => {
            return None;
        },
    };
    let z = first_nonzero(s, a, p, fs, q);
    if z == nd {
        proof {
            let l = (p - a) + 6 + exponent_at(s@, q as int).unwrap();
            if l > 0 {
                lemma_padded_zero(m, l as nat);
            }
        }
        return Some(0);
    }
    match scaled_value(s, a, p, fs, q, z, beyond, e) {
        Some(v) => Some(if neg { -v } else { v }),
        None => None,
    }
}

} // verus!

verus! {

/// The timestamp written from index `from` of a report line: the text up to
/// the first '|' or the end of the line, with surrounding spaces removed.
pub open spec fn field_timestamp(line: Seq<u8>, from: int) -> Option<int> {
    let n = line.len() as int;
    let a = skip_space(line, from, n);
    let e = trim_back(line, a, n);
    let bar = find_from(line, 124, a, e);
    timestamp_us(line.subrange(a, trim_back(line, a, bar)))
}

/// First index from `k` on where `pat` occurs in `s`.
pub open spec fn find_pat(s: Seq<u8>, pat: Seq<u8>, k: int) -> Option<int>
    decreases s.len() + 1 - k,
{
    if k < 0 || k + pat.len() > s.len() {
        None
    } else if s.subrange(k, k + pat.len()) == pat {
        Some(k)
    } else {
        find_pat(s, pat, k + 1)
    }
}

/// The timestamp that follows the first occurrence of `tag` in a report line.
pub open spec fn tag_timestamp(line: Seq<u8>, tag: Seq<u8>) -> Option<int> {
    match find_pat(line, tag, 0) {
        Some(k) => field_timestamp(line, k + tag.len()),
        None => None,
    }
}

proof fn lemma_find_from(s: Seq<u8>, b: u8, i: int, end: int)
    requires
        0 <= i <= end <= s.len(),
    ensures
        i <= find_from(s, b, i, end) <= end,
        find_from(s, b, i, end) < end ==> s[find_from(s, b, i, end)] == b,
    decreases end - i,
{
    if i < end && s[i] != b {
        lemma_find_from(s, b, i + 1, end);
    }
}

fn skip_spaces(s: &[u8], i: usize, end: usize) -> (r: usize)
    requires
        i <= end <= s@.len(),
    ensures
        r == skip_space(s@, i as int, end as int),
        i <= r <= end,
{
    let mut j = i;
    while j < end && (s[j] == 32 || (9 <= s[j] && s[j] <= 13))
        invariant
            i <= j <= end <= s@.len(),
            skip_space(s@, j as int, end as int) == skip_space(s@, i as int, end as int),
        decreases end - j,
    {
        j = j + 1;
    }
    j
}

fn trim_spaces_back(s: &[u8], lo: usize, j: usize) -> (r: usize)
    requires
        lo <= j <= s@.len(),
    ensures
        r == trim_back(s@, lo as int, j as int),
        lo <= r <= j,
{
    let mut k = j;
    while lo < k && (s[k - 1] == 32 || (9 <= s[k - 1] && s[k - 1] <= 13))
        invariant
            lo <= k <= j <= s@.len(),
            trim_back(s@, lo as int, k as int) == trim_back(s@, lo as int, j as int),
        decreases k - lo,
    {
        k = k - 1;
    }
    k
}

fn find_byte(s: &[u8], b: u8, i: usize, end: usize) -> (r: usize)
    requires
        i <= end <= s@.len(),
    ensures
        r == find_from(s@, b, i as int, end as int),
        i <= r <= end,
{
    let mut j = i;
    while j < end && s[j] != b
        invariant
            i <= j <= end <= s@.len(),
            find_from(s@, b, j as int, end as int) == find_from(s@, b, i as int, end as int),
        decreases end - j,
    {
        j = j + 1;
    }
    j
}

fn find_tag(s: &[u8], tag: &[u8]) -> (r: Option<usize>)
    ensures
        match r {
            Some(k) => find_pat(s@, tag@, 0) == Some(k as int) && k + tag@.len() <= s@.len(),
            None => find_pat(s@, tag@, 0).is_none(),
        },
{
    if tag.len() > s.len() {
        return None;
    }
    let sl = s.len();
    let last = sl - tag.len();
    let mut k: usize = 0;
    while k <= last
        invariant
            last == s@.len() - tag@.len(),
            tag@.len() <= s@.len(),
            sl == s@.len(),
            find_pat(s@, tag@, k as int) == find_pat(s@, tag@, 0),
        decreases last + 1 - k,
    {
        let mut j: usize = 0;
        let mut matching = true;
        while matching && j < tag.len()
            invariant
                k <= last,
                last == s@.len() - tag@.len(),
                tag@.len() <= s@.len(),
                sl == s@.len(),
                j <= tag@.len(),
                forall|jj: int| 0 <= jj < j ==> s@[k + jj] == tag@[jj],
                !matching ==> j < tag@.len() && s@[k + j] != tag@[j as int],
            decreases tag@.len() - j + (if matching { 1int } else { 0int }),
        {
            if s[k + j] == tag[j] {
                j = j + 1;
            } else {
                matching = false;
            }
        }
        if matching {
            assert(s@.subrange(k as int, k + tag@.len()) =~= tag@);
            return Some(k);
        }
        assert(s@.subrange(k as int, k + tag@.len())[j as int] != tag@[j as int]);
        k = k + 1;
    }
    None
}

/// The timestamp that follows the first occurrence of `tag` in a silence
/// report line, up to any '|', in microseconds.
pub fn extract_timestamp(line: &[u8], tag: &[u8]) -> (r: Option<i64>)
    ensures
        opt_int(r) == tag_timestamp(line@, tag@),
{
    let n = line.len();
    match find_tag(line, tag) {
        Some(k) => {
            let a = skip_spaces(line, k + tag.len(), n);
            let e = trim_spaces_back(line, a, n);
            let bar = find_byte(line, 124, a, e);
            let f = trim_spaces_back(line, a, bar);
            parse_seconds(slice_subrange(line, a, f))
        },
        None => None,
    }
}

} // verus!

verus! {

/// `pat` occurs somewhere in `s`.
pub open spec fn contains(s: Seq<u8>, pat: Seq<u8>) -> bool {
    find_pat(s, pat, 0).is_some()
}

/// The text `silence_start`.
pub open spec fn start_tag() -> Seq<u8> {
    seq![115u8, 105u8, 108u8, 101u8, 110u8, 99u8, 101u8, 95u8, 115u8, 116u8, 97u8, 114u8, 116u8]
}

/// The text `silence_end`.
pub open spec fn end_tag() -> Seq<u8> {
    seq![115u8, 105u8, 108u8, 101u8, 110u8, 99u8, 101u8, 95u8, 101u8, 110u8, 100u8]
}

/// The text `silence_start:`.
pub open spec fn start_field() -> Seq<u8> {
    start_tag().push(58)
}

/// The text `silence_end:`.
pub open spec fn end_field() -> Seq<u8> {
    end_tag().push(58)
}

/// One report line read with the start of an open silence, if any: the
/// silence it closes, if any, and the start left open after it.
pub open spec fn read_line(line: Seq<u8>, open: Option<int>) -> (Option<(int, int)>, Option<int>) {
    if contains(line, start_tag()) {
        match tag_timestamp(line, start_field()) {
            Some(t) => (None, Some(t)),
            None => (None, open),
        }
    } else if contains(line, end_tag()) {
        match (open, tag_timestamp(line, end_field())) {
            (Some(st), Some(en)) => (Some((st, en)), None),
            _ => (None, open),
        }
    } else {
        (None, open)
    }
}

/// Index of the line feed that ends the line starting at `i`, or the end of `s`.
pub open spec fn line_end(s: Seq<u8>, i: int) -> int {
    find_from(s, 10, i, s.len() as int)
}

/// The line starting at `i`, without its line ending (`\n` or `\r\n`).
pub open spec fn line_at(s: Seq<u8>, i: int) -> Seq<u8> {
    let e = line_end(s, i);
    if e < s.len() && e > i && s[e - 1] == 13 {
        s.subrange(i, e - 1)
    } else {
        s.subrange(i, e)
    }
}

/// The silences reported by the lines of `s` from index `i` on, with `open`
/// the start of a silence not yet closed.
pub open spec fn silences_from(s: Seq<u8>, i: int, open: Option<int>) -> Seq<(int, int)>
    decreases s.len() + 1 - i,
    via silences_from_decreases
{
    if i < 0 || i >= s.len() {
        seq![]
    } else {
        let st = read_line(line_at(s, i), open);
        let rest = silences_from(s, line_end(s, i) + 1, st.1);
        match st.0 {
            Some(p) => seq![p] + rest,
            None => rest,
        }
    }
}

#[via_fn]
proof fn silences_from_decreases(s: Seq<u8>, i: int, open: Option<int>) {
    if 0 <= i < s.len() {
        lemma_find_from(s, 10, i, s.len() as int);
    }
}

pub open spec fn silence_pairs(v: Seq<SilenceSegment>) -> Seq<(int, int)> {
    v.map_values(|x: SilenceSegment| (x.start as int, x.end as int))
}

/// The silences that a silence detector's report announces: a line holding
/// `silence_start` opens one at its timestamp, and a later line holding
/// `silence_end` closes the open one at its own timestamp. Lines whose
/// timestamp cannot be read change nothing.
pub fn parse_silence_output(output: &[u8]) -> (r: Vec<SilenceSegment>)
    ensures
        silence_pairs(r@) == silences_from(output@, 0, None),
{
    let start_tag_bytes: Vec<u8> = vec![115u8, 105u8, 108u8, 101u8, 110u8, 99u8, 101u8, 95u8, 115u8, 116u8, 97u8, 114u8, 116u8];
    let end_tag_bytes: Vec<u8> = vec![115u8, 105u8, 108u8, 101u8, 110u8, 99u8, 101u8, 95u8, 101u8, 110u8, 100u8];
    let start_field_bytes: Vec<u8> = vec![115u8, 105u8, 108u8, 101u8, 110u8, 99u8, 101u8, 95u8, 115u8, 116u8, 97u8, 114u8, 116u8, 58u8];
    let end_field_bytes: Vec<u8> = vec![115u8, 105u8, 108u8, 101u8, 110u8, 99u8, 101u8, 95u8, 101u8, 110u8, 100u8, 58u8];
    let n = output.len();
    let mut silences: Vec<SilenceSegment> = Vec::new();
    let mut current_start: Option<i64> = None;
    let mut i: usize = 0;
    while i < n
        invariant
            n == output@.len(),
            i <= n,
            start_tag_bytes@ == start_tag(),
            end_tag_bytes@ == end_tag(),
            start_field_bytes@ == start_field(),
            end_field_bytes@ == end_field(),
            silence_pairs(silences@) + silences_from(output@, i as int, opt_int(current_start))
                == silences_from(output@, 0, None),
        decreases n - i,
    {
        let e = find_byte(output, 10, i, n);
        let le = if e < n && e > i && output[e - 1] == 13 { e - 1 } else { e };
        let line = slice_subrange(output, i, le);
        assert(line@ == line_at(output@, i as int));
        let ghost before = silence_pairs(silences@);
        let ghost step = read_line(line@, opt_int(current_start));
        if find_tag(line, start_tag_bytes.as_slice()).is_some() {
            match extract_timestamp(line, start_field_bytes.as_slice()) {
                Some(t) => {
                    current_start = Some(t);
                },
                None => {},
            }
        } else if find_tag(line, end_tag_bytes.as_slice()).is_some() {
            let end = extract_timestamp(line, end_field_bytes.as_slice());
            match (current_start, end) {
                (Some(st), Some(en)) => {
                    silences.push(SilenceSegment { start: st, end: en });
                    assert(silence_pairs(silences@) =~= before.push((st as int, en as int)));
                    current_start = None;
                },
                _ => {},
            }
        }
        assert(opt_int(current_start) == step.1);
        let next = if e < n { e + 1 } else { n };
        assert(silences_from(output@, next as int, step.1) == silences_from(output@, e + 1, step.1));
        proof {
            match step.0 {
                Some(p) => {
                    assert(silence_pairs(silences@) =~= before.push(p));
                    assert(before.push(p) + silences_from(output@, next as int, step.1)
                        =~= before + (seq![p] + silences_from(output@, next as int, step.1)));
                },
                None => {
                    assert(silence_pairs(silences@) == before);
                },
            }
        }
        i = next;
    }
    assert(silence_pairs(silences@) + seq![] =~= silence_pairs(silences@));
    silences
}

} // verus!

verus! {

/// A duration report: one decimal number of seconds, with spaces around it.
pub open spec fn duration_report_us(s: Seq<u8>) -> Option<int> {
    let a = skip_space(s, 0, s.len() as int);
    timestamp_us(s.subrange(a, trim_back(s, a, s.len() as int)))
}

/// Reads a media duration report, in microseconds.
pub fn parse_duration(output: &[u8]) -> (r: Option<i64>)
    ensures
        opt_int(r) == duration_report_us(output@),
{
    let n = output.len();
    let a = skip_spaces(output, 0, n);
    let e = trim_spaces_back(output, a, n);
    parse_seconds(slice_subrange(output, a, e))
}

/// Length of the fade-in and fade-out applied to each extracted clip.
pub const FADE_US: i64 = 50_000;

/// Where the fade-out of a clip of length `duration` begins: one fade length
/// before its end, and never before its start.
pub fn fade_out_start(duration: i64) -> (r: i64)
    ensures
        r == (if duration - FADE_US > 0 { duration - FADE_US } else { 0 }),
{
    if duration > FADE_US {
        duration - FADE_US
    } else {
        0
    }
}

} // verus!
