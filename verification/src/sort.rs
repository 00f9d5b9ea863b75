//! Datatype-aware comparison of sort keys. A key is compared numerically
//! when the sort property's datatype is a quantity, chronologically when it
//! is a time, and as case-normalized text otherwise. Each comparison is a
//! total preorder: totality and transitivity are proved here, and the
//! stable sort builds on them.

use crate::entity::SnakDataType;
use crate::text::{spec_all_digits, spec_find_from, spec_is_digit};
use crate::trusted::{lower_of, lowercase};
use vstd::prelude::*;

verus! {

/// Lexicographic order on character sequences, by code point; a proper
/// prefix comes first.
pub open spec fn lex_le(a: Seq<char>, b: Seq<char>) -> bool
    decreases a.len(),
{
    if a.len() == 0 {
        true
    } else if b.len() == 0 {
        false
    } else if (a[0] as u32) < (b[0] as u32) {
        true
    } else if a[0] != b[0] {
        false
    } else {
        lex_le(a.skip(1), b.skip(1))
    }
}

pub proof fn lemma_lex_total(a: Seq<char>, b: Seq<char>)
    ensures
        lex_le(a, b) || lex_le(b, a),
    decreases a.len(),
{
    if a.len() > 0 && b.len() > 0 {
        if a[0] == b[0] {
            lemma_lex_total(a.skip(1), b.skip(1));
        } else {
            assert((a[0] as u32) != (b[0] as u32)) by {
                vstd::utf8::char_u32_cast(a[0], a[0] as u32);
                vstd::utf8::char_u32_cast(b[0], b[0] as u32);
            }
        }
    }
}

pub proof fn lemma_lex_trans(a: Seq<char>, b: Seq<char>, c: Seq<char>)
    requires
        lex_le(a, b),
        lex_le(b, c),
    ensures
        lex_le(a, c),
    decreases a.len(),
{
    if a.len() > 0 && b.len() > 0 && c.len() > 0 && a[0] == b[0] && b[0] == c[0] {
        lemma_lex_trans(a.skip(1), b.skip(1), c.skip(1));
    }
}

/// Equal prefixes can be dropped from a lexicographic comparison.
pub proof fn lemma_lex_skip_common(a: Seq<char>, b: Seq<char>, k: int)
    requires
        0 <= k <= a.len(),
        k <= b.len(),
        forall|j: int| 0 <= j < k ==> a[j] == b[j],
    ensures
        lex_le(a, b) == lex_le(a.skip(k), b.skip(k)),
    decreases k,
{
    if k > 0 {
        assert(a.skip(1).skip(k - 1) =~= a.skip(k));
        assert(b.skip(1).skip(k - 1) =~= b.skip(k));
        assert(a[0] == b[0]);
        if a.len() > 0 && b.len() > 0 {
            lemma_lex_skip_common(a.skip(1), b.skip(1), k - 1);
        }
    } else {
        assert(a.skip(0) =~= a);
        assert(b.skip(0) =~= b);
    }
}

/// Executable lexicographic comparison.
pub fn lex_le_str(a: &str, b: &str) -> (r: bool)
    ensures
        r == lex_le(a@, b@),
{
    let alen = a.unicode_len();
    let blen = b.unicode_len();
    let mut i: usize = 0;
    while i < alen && i < blen
        invariant
            alen == a@.len(),
            blen == b@.len(),
            0 <= i <= alen,
            i <= blen,
            forall|j: int| 0 <= j < i ==> a@[j] == b@[j],
        decreases alen - i,
    {
        let ca = a.get_char(i);
        let cb = b.get_char(i);
        if ca != cb {
            proof {
                lemma_lex_skip_common(a@, b@, i as int);
            }
            return (ca as u32) < (cb as u32);
        }
        i += 1;
    }
    proof {
        lemma_lex_skip_common(a@, b@, i as int);
    }
    alen <= blen
}

/// A decimal key: sign, integer digits without leading zeros, fraction
/// digits without trailing zeros.
pub struct NumKey {
    pub neg: bool,
    pub ip: Seq<char>,
    pub fp: Seq<char>,
}

/// Leading zeros removed.
pub open spec fn strip_leading_zeros(s: Seq<char>) -> Seq<char>
    decreases s.len(),
{
    if s.len() > 0 && s[0] == '0' {
        strip_leading_zeros(s.skip(1))
    } else {
        s
    }
}

/// Trailing zeros removed.
pub open spec fn strip_trailing_zeros(s: Seq<char>) -> Seq<char>
    decreases s.len(),
{
    if s.len() > 0 && s.last() == '0' {
        strip_trailing_zeros(s.drop_last())
    } else {
        s
    }
}

/// Parse a decimal literal: an optional sign, one or more integer digits,
/// and an optional fraction after one `.`.
pub open spec fn spec_parse_num(s: Seq<char>) -> Option<NumKey> {
    let neg = s.len() > 0 && s[0] == '-';
    let t = if s.len() > 0 && (s[0] == '-' || s[0] == '+') {
        s.skip(1)
    } else {
        s
    };
    match spec_find_from(t, 0, '.') {
        None => {
            if t.len() > 0 && spec_all_digits(t) {
                Some(NumKey { neg, ip: strip_leading_zeros(t), fp: Seq::empty() })
            } else {
                None
            }
        },
        Some(i) => {
            let ip = t.subrange(0, i);
            let fp = t.skip(i + 1);
            if ip.len() > 0 && spec_all_digits(ip) && spec_all_digits(fp) && spec_find_from(
                fp,
                0,
                '.',
            ) is None {
                Some(NumKey { neg, ip: strip_leading_zeros(ip), fp: strip_trailing_zeros(fp) })
            } else {
                None
            }
        },
    }
}

/// Magnitude order: a shorter integer part is smaller; with equal lengths
/// the digit strings are compared lexicographically, fraction appended.
pub open spec fn mag_le(x: NumKey, y: NumKey) -> bool {
    x.ip.len() < y.ip.len() || (x.ip.len() == y.ip.len() && lex_le(x.ip + x.fp, y.ip + y.fp))
}

/// Numeric order on parsed keys: negatives first, then by magnitude,
/// reversed among negatives.
pub open spec fn num_le(x: NumKey, y: NumKey) -> bool {
    if x.neg != y.neg {
        x.neg
    } else if !x.neg {
        mag_le(x, y)
    } else {
        mag_le(y, x)
    }
}

pub proof fn lemma_mag_total(x: NumKey, y: NumKey)
    ensures
        mag_le(x, y) || mag_le(y, x),
{
    if x.ip.len() == y.ip.len() {
        lemma_lex_total(x.ip + x.fp, y.ip + y.fp);
    }
}

pub proof fn lemma_mag_trans(x: NumKey, y: NumKey, z: NumKey)
    requires
        mag_le(x, y),
        mag_le(y, z),
    ensures
        mag_le(x, z),
{
    if x.ip.len() == y.ip.len() && y.ip.len() == z.ip.len() {
        lemma_lex_trans(x.ip + x.fp, y.ip + y.fp, z.ip + z.fp);
    }
}

/// Numeric comparison of two raw key strings, with unparseable strings
/// after all numbers and ordered among themselves as text.
pub open spec fn quantity_key_le(a: Seq<char>, b: Seq<char>) -> bool {
    match (spec_parse_num(a), spec_parse_num(b)) {
        (Some(x), Some(y)) => num_le(x, y),
        (Some(x), None) => true,
        (None, Some(y)) => false,
        (None, None) => lex_le(a, b),
    }
}

pub proof fn lemma_quantity_total(a: Seq<char>, b: Seq<char>)
    ensures
        quantity_key_le(a, b) || quantity_key_le(b, a),
{
    match (spec_parse_num(a), spec_parse_num(b)) {
        (Some(x), Some(y)) => {
            if x.neg == y.neg {
                lemma_mag_total(x, y);
            }
        },
        (None, None) => {
            lemma_lex_total(a, b);
        },
        _ => {},
    }
}

pub proof fn lemma_quantity_trans(a: Seq<char>, b: Seq<char>, c: Seq<char>)
    requires
        quantity_key_le(a, b),
        quantity_key_le(b, c),
    ensures
        quantity_key_le(a, c),
{
    match (spec_parse_num(a), spec_parse_num(b), spec_parse_num(c)) {
        (Some(x), Some(y), Some(z)) => {
            if x.neg == y.neg && y.neg == z.neg {
                if !x.neg {
                    lemma_mag_trans(x, y, z);
                } else {
                    lemma_mag_trans(z, y, x);
                }
            }
        },
        (None, None, None) => {
            lemma_lex_trans(a, b, c);
        },
        _ => {},
    }
}

/// A timestamp key: era, year digits without leading zeros, and the rest
/// of the literal.
pub struct TimeKey {
    pub bc: bool,
    pub year: Seq<char>,
    pub rest: Seq<char>,
}

/// The length of the leading digit run of `s`.
pub open spec fn spec_digit_run(s: Seq<char>, from: int) -> int
    decreases s.len() - from,
{
    if 0 <= from < s.len() && spec_is_digit(s[from]) {
        spec_digit_run(s, from + 1)
    } else {
        from
    }
}

/// Parse a timestamp literal: an optional era sign, one or more year
/// digits, then anything.
pub open spec fn spec_parse_time(s: Seq<char>) -> Option<TimeKey> {
    let bc = s.len() > 0 && s[0] == '-';
    let t = if s.len() > 0 && (s[0] == '-' || s[0] == '+') {
        s.skip(1)
    } else {
        s
    };
    let k = spec_digit_run(t, 0);
    if k > 0 {
        Some(
            TimeKey {
                bc,
                year: strip_leading_zeros(t.subrange(0, k)),
                rest: t.skip(k),
            },
        )
    } else {
        None
    }
}

/// Chronological order on parsed keys: era first, years numerically
/// (reversed within the earlier era), then the remainder as text.
pub open spec fn time_le(x: TimeKey, y: TimeKey) -> bool {
    if x.bc != y.bc {
        x.bc
    } else {
        let p = if x.bc {
            y.year
        } else {
            x.year
        };
        let q = if x.bc {
            x.year
        } else {
            y.year
        };
        if p.len() != q.len() {
            p.len() < q.len()
        } else if p != q {
            lex_le(p, q)
        } else {
            lex_le(x.rest, y.rest)
        }
    }
}

/// Chronological comparison of raw key strings, unparseable ones last and
/// ordered as text.
pub open spec fn time_key_le(a: Seq<char>, b: Seq<char>) -> bool {
    match (spec_parse_time(a), spec_parse_time(b)) {
        (Some(x), Some(y)) => time_le(x, y),
        (Some(x), None) => true,
        (None, Some(y)) => false,
        (None, None) => lex_le(a, b),
    }
}

pub proof fn lemma_time_total(a: Seq<char>, b: Seq<char>)
    ensures
        time_key_le(a, b) || time_key_le(b, a),
{
    match (spec_parse_time(a), spec_parse_time(b)) {
        (Some(x), Some(y)) => {
            if x.bc == y.bc {
                if x.year.len() == y.year.len() && x.year == y.year {
                    lemma_lex_total(x.rest, y.rest);
                } else if x.year.len() == y.year.len() {
                    lemma_lex_total(x.year, y.year);
                }
            }
        },
        (None, None) => {
            lemma_lex_total(a, b);
        },
        _ => {},
    }
}

pub proof fn lemma_time_trans(a: Seq<char>, b: Seq<char>, c: Seq<char>)
    requires
        time_key_le(a, b),
        time_key_le(b, c),
    ensures
        time_key_le(a, c),
{
    match (spec_parse_time(a), spec_parse_time(b), spec_parse_time(c)) {
        (Some(x), Some(y), Some(z)) => {
            if x.bc == y.bc && y.bc == z.bc {
                if x.year.len() == y.year.len() && y.year.len() == z.year.len() {
                    if x.year == y.year && y.year == z.year {
                        lemma_lex_trans(x.rest, y.rest, z.rest);
                    } else if x.year == y.year || y.year == z.year {
                        // one strict step carries over by congruence
                    } else if !x.bc {
                        lemma_lex_trans(x.year, y.year, z.year);
                        if x.year == z.year {
                            // both steps strict yet the ends equal: they
                            // contradict each other
                            lemma_lex_antisym(x.year, y.year);
                        }
                    } else {
                        lemma_lex_trans(z.year, y.year, x.year);
                        if x.year == z.year {
                            lemma_lex_antisym(z.year, y.year);
                        }
                    }
                }
            }
        },
        (None, None, None) => {
            lemma_lex_trans(a, b, c);
        },
        _ => {},
    }
}

/// Two sequences each lexicographically at most the other are equal.
pub proof fn lemma_lex_antisym(a: Seq<char>, b: Seq<char>)
    requires
        lex_le(a, b),
        lex_le(b, a),
    ensures
        a == b,
    decreases a.len(),
{
    if a.len() > 0 && b.len() > 0 && a[0] == b[0] {
        lemma_lex_antisym(a.skip(1), b.skip(1));
        assert(a =~= seq![a[0]] + a.skip(1));
        assert(b =~= seq![b[0]] + b.skip(1));
    } else {
        assert(a =~= b);
    }
}

/// The datatype-aware key order: numeric for quantities, chronological for
/// times, case-normalized text otherwise.
pub open spec fn spec_key_le(a: Seq<char>, b: Seq<char>, dt: SnakDataType) -> bool {
    match dt {
        SnakDataType::Quantity => quantity_key_le(a, b),
        SnakDataType::Time => time_key_le(a, b),
        _ => lex_le(lower_of(a), lower_of(b)),
    }
}

/// The key order admits every pair.
pub proof fn lemma_key_le_total(a: Seq<char>, b: Seq<char>, dt: SnakDataType)
    ensures
        spec_key_le(a, b, dt) || spec_key_le(b, a, dt),
{
    match dt {
        SnakDataType::Quantity => lemma_quantity_total(a, b),
        SnakDataType::Time => lemma_time_total(a, b),
        _ => lemma_lex_total(lower_of(a), lower_of(b)),
    }
}

/// The key order is transitive.
pub proof fn lemma_key_le_trans(a: Seq<char>, b: Seq<char>, c: Seq<char>, dt: SnakDataType)
    requires
        spec_key_le(a, b, dt),
        spec_key_le(b, c, dt),
    ensures
        spec_key_le(a, c, dt),
{
    match dt {
        SnakDataType::Quantity => lemma_quantity_trans(a, b, c),
        SnakDataType::Time => lemma_time_trans(a, b, c),
        _ => lemma_lex_trans(lower_of(a), lower_of(b), lower_of(c)),
    }
}

/// The executable form of a parsed decimal key.
struct NumKeyE {
    neg: bool,
    ip: String,
    fp: String,
}

proof fn lemma_strip_leading_range(s: Seq<char>, k: int)
    requires
        0 <= k <= s.len(),
        forall|j: int| 0 <= j < k ==> s[j] == '0',
        k < s.len() ==> s[k] != '0',
    ensures
        strip_leading_zeros(s) == s.skip(k),
    decreases k,
{
    if k > 0 {
        assert(s.skip(1).skip(k - 1) =~= s.skip(k));
        lemma_strip_leading_range(s.skip(1), k - 1);
    } else {
        assert(s.skip(0) =~= s);
    }
}

proof fn lemma_strip_trailing_range(s: Seq<char>, k: int)
    requires
        0 <= k <= s.len(),
        forall|j: int| k <= j < s.len() ==> s[j] == '0',
        k > 0 ==> s[k - 1] != '0',
    ensures
        strip_trailing_zeros(s) == s.take(k),
    decreases s.len() - k,
{
    if k < s.len() {
        assert(s.drop_last() =~= s.take(s.len() - 1));
        lemma_strip_trailing_range(s.drop_last(), k);
        assert(s.drop_last().take(k) =~= s.take(k));
    } else {
        assert(s.take(s.len() as int) =~= s);
    }
}

/// Drop leading zero digits.
fn strip_leading(s: &str) -> (r: String)
    ensures
        r@ == strip_leading_zeros(s@),
{
    let len = s.unicode_len();
    let mut k: usize = 0;
    while k < len && s.get_char(k) == '0'
        invariant
            len == s@.len(),
            0 <= k <= len,
            forall|j: int| 0 <= j < k ==> s@[j] == '0',
        decreases len - k,
    {
        k += 1;
    }
    let sub = s.substring_char(k, len);
    proof {
        lemma_strip_leading_range(s@, k as int);
        assert(sub@ =~= s@.skip(k as int));
    }
    String::from_str(sub)
}

/// Drop trailing zero digits.
fn strip_trailing(s: &str) -> (r: String)
    ensures
        r@ == strip_trailing_zeros(s@),
{
    let len = s.unicode_len();
    let mut k: usize = len;
    while k > 0 && s.get_char(k - 1) == '0'
        invariant
            len == s@.len(),
            0 <= k <= len,
            forall|j: int| k <= j < len ==> s@[j] == '0',
        decreases k,
    {
        k -= 1;
    }
    let sub = s.substring_char(0, k);
    proof {
        lemma_strip_trailing_range(s@, k as int);
        assert(sub@ =~= s@.take(k as int));
    }
    String::from_str(sub)
}

fn all_digits(s: &str) -> (r: bool)
    ensures
        r == spec_all_digits(s@),
{
    let len = s.unicode_len();
    let mut i: usize = 0;
    while i < len
        invariant
            len == s@.len(),
            0 <= i <= len,
            forall|j: int| 0 <= j < i ==> spec_is_digit(#[trigger] s@[j]),
        decreases len - i,
    {
        let c = s.get_char(i);
        if c < '0' || c > '9' {
            return false;
        }
        i += 1;
    }
    true
}

fn parse_num(s: &str) -> (r: Option<NumKeyE>)
    ensures
        match r {
            Some(k) => spec_parse_num(s@) == Some(
                NumKey { neg: k.neg, ip: k.ip@, fp: k.fp@ },
            ),
            None => spec_parse_num(s@) is None,
        },
{
    let len = s.unicode_len();
    let neg = len > 0 && s.get_char(0) == '-';
    let signed = len > 0 && (s.get_char(0) == '-' || s.get_char(0) == '+');
    let t = if signed {
        s.substring_char(1, len)
    } else {
        s
    };
    proof {
        if signed {
            assert(t@ =~= s@.skip(1));
        }
    }
    let tlen = t.unicode_len();
    match crate::text::find_from(t, 0, '.') {
        None => {
            if tlen > 0 && all_digits(t) {
                Some(NumKeyE { neg, ip: strip_leading(t), fp: String::new() })
            } else {
                None
            }
        },
        Some(i) => {
            proof {
                crate::text::lemma_find_from_bounds(t@, 0, '.');
            }
            let ip = t.substring_char(0, i);
            let fp = t.substring_char(i + 1, tlen);
            proof {
                assert(fp@ =~= t@.skip(i + 1));
            }
            let fp_dot = match crate::text::find_from(fp, 0, '.') {
                None => false,
                Some(_) => true,
            };
            if ip.unicode_len() > 0 && all_digits(ip) && all_digits(fp) && !fp_dot {
                Some(NumKeyE { neg, ip: strip_leading(ip), fp: strip_trailing(fp) })
            } else {
                None
            }
        },
    }
}

/// The executable form of a parsed timestamp key.
struct TimeKeyE {
    bc: bool,
    year: String,
    rest: String,
}

proof fn lemma_digit_run_range(s: Seq<char>, from: int, k: int)
    requires
        0 <= from <= k <= s.len(),
        forall|j: int| from <= j < k ==> spec_is_digit(#[trigger] s[j]),
        k < s.len() ==> !spec_is_digit(s[k]),
    ensures
        spec_digit_run(s, from) == k,
    decreases k - from,
{
    if from < k {
        lemma_digit_run_range(s, from + 1, k);
    }
}

fn parse_time(s: &str) -> (r: Option<TimeKeyE>)
    ensures
        match r {
            Some(k) => spec_parse_time(s@) == Some(
                TimeKey { bc: k.bc, year: k.year@, rest: k.rest@ },
            ),
            None => spec_parse_time(s@) is None,
        },
{
    let len = s.unicode_len();
    let bc = len > 0 && s.get_char(0) == '-';
    let signed = len > 0 && (s.get_char(0) == '-' || s.get_char(0) == '+');
    let t = if signed {
        s.substring_char(1, len)
    } else {
        s
    };
    proof {
        if signed {
            assert(t@ =~= s@.skip(1));
        }
    }
    let tlen = t.unicode_len();
    let mut k: usize = 0;
    while k < tlen && digit_at(t, k)
        invariant
            tlen == t@.len(),
            0 <= k <= tlen,
            forall|j: int| 0 <= j < k ==> spec_is_digit(#[trigger] t@[j]),
        decreases tlen - k,
    {
        k += 1;
    }
    proof {
        lemma_digit_run_range(t@, 0, k as int);
    }
    if k == 0 {
        return None;
    }
    let year_raw = t.substring_char(0, k);
    let rest = t.substring_char(k, tlen);
    proof {
        assert(year_raw@ =~= t@.subrange(0, k as int));
        assert(rest@ =~= t@.skip(k as int));
    }
    Some(TimeKeyE { bc, year: strip_leading(year_raw), rest: String::from_str(rest) })
}

fn digit_at(s: &str, i: usize) -> (r: bool)
    requires
        i < s@.len(),
    ensures
        r == spec_is_digit(s@[i as int]),
{
    let c = s.get_char(i);
    '0' <= c && c <= '9'
}

/// Compare two raw sort keys under the datatype's order.
pub fn key_le(a: &str, b: &str, dt: &SnakDataType) -> (r: bool)
    ensures
        r == spec_key_le(a@, b@, *dt),
{
    match dt {
        SnakDataType::Quantity => {
            match (parse_num(a), parse_num(b)) {
                (Some(x), Some(y)) => num_le_exec(&x, &y),
                (Some(_), None) => true,
                (None, Some(_)) => false,
                (None, None) => lex_le_str(a, b),
            }
        },
        SnakDataType::Time => {
            match (parse_time(a), parse_time(b)) {
                (Some(x), Some(y)) => time_le_exec(&x, &y),
                (Some(_), None) => true,
                (None, Some(_)) => false,
                (None, None) => lex_le_str(a, b),
            }
        },
        _ => {
            let la = lowercase(a);
            let lb = lowercase(b);
            lex_le_str(la.as_str(), lb.as_str())
        },
    }
}

fn num_le_exec(x: &NumKeyE, y: &NumKeyE) -> (r: bool)
    ensures
        r == num_le(
            NumKey { neg: x.neg, ip: x.ip@, fp: x.fp@ },
            NumKey { neg: y.neg, ip: y.ip@, fp: y.fp@ },
        ),
{
    if x.neg != y.neg {
        return x.neg;
    }
    let (p, q) = if !x.neg {
        (x, y)
    } else {
        (y, x)
    };
    let plen = p.ip.as_str().unicode_len();
    let qlen = q.ip.as_str().unicode_len();
    if plen != qlen {
        return plen < qlen;
    }
    let mut pc = p.ip.clone();
    pc.append(p.fp.as_str());
    let mut qc = q.ip.clone();
    qc.append(q.fp.as_str());
    lex_le_str(pc.as_str(), qc.as_str())
}

fn time_le_exec(x: &TimeKeyE, y: &TimeKeyE) -> (r: bool)
    ensures
        r == time_le(
            TimeKey { bc: x.bc, year: x.year@, rest: x.rest@ },
            TimeKey { bc: y.bc, year: y.year@, rest: y.rest@ },
        ),
{
    if x.bc != y.bc {
        return x.bc;
    }
    let (p, q) = if !x.bc {
        (&x.year, &y.year)
    } else {
        (&y.year, &x.year)
    };
    let plen = p.as_str().unicode_len();
    let qlen = q.as_str().unicode_len();
    if plen != qlen {
        return plen < qlen;
    }
    if !crate::text::str_eq(p.as_str(), q.as_str()) {
        return lex_le_str(p.as_str(), q.as_str());
    }
    lex_le_str(x.rest.as_str(), y.rest.as_str())
}

} // verus!
