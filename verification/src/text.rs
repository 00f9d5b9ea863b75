//! Small verified string utilities shared by the other modules: equality,
//! searching, prefix tests, decimal parsing and pattern replacement, all
//! specified over `Seq<char>` views.

use vstd::prelude::*;

verus! {

/// Executable equality on string slices, proved against the views.
pub fn str_eq(a: &str, b: &str) -> (r: bool)
    ensures
        r == (a@ == b@),
{
    let alen = a.unicode_len();
    let blen = b.unicode_len();
    if alen != blen {
        assert(a@ != b@) by {
            assert(a@.len() != b@.len());
        }
        return false;
    }
    let mut i: usize = 0;
    while i < alen
        invariant
            alen == a@.len(),
            blen == b@.len(),
            alen == blen,
            0 <= i <= alen,
            forall|j: int| 0 <= j < i ==> a@[j] == b@[j],
        decreases alen - i,
    {
        if a.get_char(i) != b.get_char(i) {
            return false;
        }
        i += 1;
    }
    proof {
        assert(a@ =~= b@);
    }
    true
}

/// First index `i >= from` with `s@[i] == c`, if any.
pub open spec fn spec_find_from(s: Seq<char>, from: int, c: char) -> Option<int>
    decreases s.len() - from,
{
    if from < 0 || from >= s.len() {
        None
    } else if s[from] == c {
        Some(from)
    } else {
        spec_find_from(s, from + 1, c)
    }
}

pub fn find_from(s: &str, from: usize, c: char) -> (r: Option<usize>)
    ensures
        match r {
            Some(i) => from <= i < s@.len() && spec_find_from(s@, from as int, c) == Some(i as int),
            None => spec_find_from(s@, from as int, c) is None,
        },
{
    let len = s.unicode_len();
    let mut i: usize = from;
    while i < len
        invariant
            len == s@.len(),
            from <= i,
            spec_find_from(s@, from as int, c) == spec_find_from(s@, i as int, c),
        decreases len - i,
    {
        if s.get_char(i) == c {
            return Some(i);
        }
        i += 1;
    }
    None
}

/// Whether `p` is a prefix of `s`.
pub open spec fn spec_starts_with(s: Seq<char>, p: Seq<char>) -> bool {
    p.len() <= s.len() && s.subrange(0, p.len() as int) == p
}

pub fn starts_with_str(s: &str, p: &str) -> (r: bool)
    ensures
        r == spec_starts_with(s@, p@),
{
    let slen = s.unicode_len();
    let plen = p.unicode_len();
    if plen > slen {
        return false;
    }
    let mut i: usize = 0;
    while i < plen
        invariant
            slen == s@.len(),
            plen == p@.len(),
            plen <= slen,
            0 <= i <= plen,
            forall|j: int| 0 <= j < i ==> s@[j] == p@[j],
        decreases plen - i,
    {
        if s.get_char(i) != p.get_char(i) {
            assert(s@.subrange(0, p@.len() as int)[i as int] != p@[i as int]);
            return false;
        }
        i += 1;
    }
    proof {
        assert(s@.subrange(0, p@.len() as int) =~= p@);
    }
    true
}

/// The numeric value of a sequence of decimal digits.
pub open spec fn spec_digits_value(s: Seq<char>) -> nat
    decreases s.len(),
{
    if s.len() == 0 {
        0
    } else {
        spec_digits_value(s.drop_last()) * 10 + spec_digit_value(s.last())
    }
}

pub open spec fn spec_digit_value(c: char) -> nat {
    ((c as int) - ('0' as int)) as nat
}

pub open spec fn spec_is_digit(c: char) -> bool {
    '0' <= c && c <= '9'
}

pub open spec fn spec_all_digits(s: Seq<char>) -> bool {
    forall|i: int| 0 <= i < s.len() ==> spec_is_digit(#[trigger] s[i])
}

/// Parse a non-empty all-digit string as a `u64`; `None` on any other shape
/// or on overflow.
pub open spec fn spec_parse_u64(s: Seq<char>) -> Option<u64> {
    if s.len() > 0 && spec_all_digits(s) && spec_digits_value(s) <= u64::MAX {
        Some(spec_digits_value(s) as u64)
    } else {
        None
    }
}

pub fn parse_u64(s: &str) -> (r: Option<u64>)
    ensures
        r == spec_parse_u64(s@),
{
    let len = s.unicode_len();
    if len == 0 {
        return None;
    }
    let mut i: usize = 0;
    let mut acc: u64 = 0;
    while i < len
        invariant
            len == s@.len(),
            0 < len,
            0 <= i <= len,
            spec_all_digits(s@.subrange(0, i as int)),
            acc == spec_digits_value(s@.subrange(0, i as int)),
        decreases len - i,
    {
        let c = s.get_char(i);
        if c < '0' || c > '9' {
            assert(!spec_is_digit(s@[i as int]));
            return None;
        }
        let d: u64 = (c as u32 as u64) - ('0' as u32 as u64);
        assert(d == spec_digit_value(s@[i as int]) && d <= 9);
        if acc > (u64::MAX - d) / 10 {
            proof {
                let pre = s@.subrange(0, i as int);
                let ext = s@.subrange(0, i as int + 1);
                assert(ext.drop_last() =~= pre);
                assert(spec_digits_value(ext) == acc * 10 + d);
                if spec_all_digits(s@) {
                    lemma_digits_value_monotone(ext, s@);
                }
            }
            return None;
        }
        proof {
            let pre = s@.subrange(0, i as int);
            let ext = s@.subrange(0, i as int + 1);
            assert(ext.drop_last() =~= pre);
            assert(ext.last() == s@[i as int]);
        }
        acc = acc * 10 + d;
        i += 1;
    }
    proof {
        assert(s@.subrange(0, len as int) =~= s@);
    }
    Some(acc)
}

/// Index of the first occurrence of `p` in `s`, if any; an empty pattern
/// never occurs.
pub open spec fn spec_first_occ(s: Seq<char>, p: Seq<char>) -> Option<int>
    decreases s.len(),
{
    if p.len() == 0 || s.len() < p.len() {
        None
    } else if s.subrange(0, p.len() as int) == p {
        Some(0)
    } else {
        match spec_first_occ(s.skip(1), p) {
            Some(i) => Some(i + 1),
            None => None,
        }
    }
}

pub proof fn lemma_first_occ_bounds(s: Seq<char>, p: Seq<char>)
    requires
        spec_first_occ(s, p) is Some,
    ensures
        p.len() > 0,
        0 <= spec_first_occ(s, p)->Some_0,
        spec_first_occ(s, p)->Some_0 + p.len() <= s.len(),
        s.subrange(spec_first_occ(s, p)->Some_0, spec_first_occ(s, p)->Some_0 + p.len()) == p,
    decreases s.len(),
{
    let i = spec_first_occ(s, p)->Some_0;
    if !(p.len() == 0 || s.len() < p.len()) && s.subrange(0, p.len() as int) != p {
        lemma_first_occ_bounds(s.skip(1), p);
        let j = spec_first_occ(s.skip(1), p)->Some_0;
        assert(s.skip(1).subrange(j, j + p.len()) =~= s.subrange(i, i + p.len()));
    }
}

/// `s` with every occurrence of `p` replaced by `r`, scanning left to right
/// and not rescanning replaced text; `s` unchanged when `p` is empty.
pub open spec fn spec_replace_all(s: Seq<char>, p: Seq<char>, r: Seq<char>) -> Seq<char>
    decreases s.len(),
    via spec_replace_all_dec
{
    match spec_first_occ(s, p) {
        None => s,
        Some(i) => s.subrange(0, i) + r + spec_replace_all(s.skip(i + p.len()), p, r),
    }
}

#[via_fn]
proof fn spec_replace_all_dec(s: Seq<char>, p: Seq<char>, r: Seq<char>) {
    if spec_first_occ(s, p) is Some {
        lemma_first_occ_bounds(s, p);
    }
}

/// When `p` occurs at the front of `t`, the replacement drops that prefix.
proof fn lemma_replace_at_front(t: Seq<char>, p: Seq<char>, r: Seq<char>)
    requires
        p.len() > 0,
        p.len() <= t.len(),
        t.subrange(0, p.len() as int) == p,
    ensures
        spec_replace_all(t, p, r) == r + spec_replace_all(t.skip(p.len() as int), p, r),
{
    assert(spec_first_occ(t, p) == Some(0int));
    let x = spec_replace_all(t.skip(0int + p.len() as int), p, r);
    assert(spec_replace_all(t, p, r) == t.subrange(0, 0) + r + x);
    assert(t.subrange(0, 0) + r + x =~= r + x);
    assert(t.skip(0int + p.len() as int) =~= t.skip(p.len() as int));
}

/// When `p` does not occur at the front of `t`, the first character passes
/// through unchanged.
proof fn lemma_replace_step_char(t: Seq<char>, p: Seq<char>, r: Seq<char>)
    requires
        p.len() > 0,
        t.len() > 0,
        !(p.len() <= t.len() && t.subrange(0, p.len() as int) == p),
    ensures
        spec_replace_all(t, p, r) == t.subrange(0, 1) + spec_replace_all(t.skip(1), p, r),
{
    match spec_first_occ(t, p) {
        None => {
            assert(spec_first_occ(t.skip(1), p) is None);
            assert(t =~= t.subrange(0, 1) + t.skip(1));
        },
        Some(i) => {
            lemma_first_occ_bounds(t, p);
            assert(spec_first_occ(t.skip(1), p) == Some(i - 1));
            lemma_first_occ_bounds(t.skip(1), p);
            assert(t.subrange(0, i) =~= t.subrange(0, 1) + t.skip(1).subrange(0, i - 1));
            assert(t.skip(i + p.len()) =~= t.skip(1).skip(i - 1 + p.len()));
            assert(spec_replace_all(t, p, r) =~= t.subrange(0, 1) + spec_replace_all(
                t.skip(1),
                p,
                r,
            ));
        },
    }
}

/// Whether `p` occurs in `s` at position `pos`.
fn matches_at(s: &str, slen: usize, pos: usize, p: &str, plen: usize) -> (r: bool)
    requires
        slen == s@.len(),
        plen == p@.len(),
        pos <= slen,
    ensures
        r == (pos + plen <= s@.len() && s@.subrange(pos as int, pos as int + plen as int) == p@),
{
    if plen > slen - pos {
        return false;
    }
    let sub = s.substring_char(pos, pos + plen);
    str_eq(sub, p)
}

/// Replace every occurrence of `p` in `s` by `rep`, left to right.
pub fn replace_all(s: &str, p: &str, rep: &str) -> (out: String)
    ensures
        out@ == spec_replace_all(s@, p@, rep@),
{
    let slen = s.unicode_len();
    let plen = p.unicode_len();
    if plen == 0 {
        return String::from_str(s);
    }
    let mut out = String::new();
    let mut pos: usize = 0;
    proof {
        assert(s@.skip(0) =~= s@);
    }
    while pos < slen
        invariant
            slen == s@.len(),
            plen == p@.len(),
            plen > 0,
            0 <= pos <= slen,
            out@ + spec_replace_all(s@.skip(pos as int), p@, rep@) == spec_replace_all(
                s@,
                p@,
                rep@,
            ),
        decreases slen - pos,
    {
        let ghost t = s@.skip(pos as int);
        if matches_at(s, slen, pos, p, plen) {
            proof {
                assert(t.subrange(0, p@.len() as int) =~= s@.subrange(
                    pos as int,
                    pos as int + p@.len() as int,
                ));
                lemma_replace_at_front(t, p@, rep@);
                assert(t.skip(p@.len() as int) =~= s@.skip(pos as int + p@.len() as int));
            }
            out.append(rep);
            pos += plen;
        } else {
            proof {
                if p@.len() <= t.len() {
                    assert(t.subrange(0, p@.len() as int) =~= s@.subrange(
                        pos as int,
                        pos as int + p@.len() as int,
                    ));
                }
                lemma_replace_step_char(t, p@, rep@);
                assert(t.skip(1) =~= s@.skip(pos as int + 1));
            }
            let c = s.substring_char(pos, pos + 1);
            proof {
                assert(c@ =~= t.subrange(0, 1));
            }
            out.append(c);
            pos += 1;
        }
    }
    proof {
        assert(s@.skip(pos as int) =~= Seq::<char>::empty());
        assert(spec_first_occ(Seq::<char>::empty(), p@) is None);
        assert(out@ =~= out@ + Seq::<char>::empty());
    }
    out
}

/// A longer digit string (or an equal one) never has a smaller value than its
/// prefix; used to conclude overflow for the whole string from overflow of a
/// prefix.
pub proof fn lemma_digits_value_monotone(p: Seq<char>, s: Seq<char>)
    requires
        p.len() <= s.len(),
        p =~= s.subrange(0, p.len() as int),
        spec_all_digits(s),
    ensures
        spec_digits_value(p) <= spec_digits_value(s),
    decreases s.len() - p.len(),
{
    if p.len() < s.len() {
        let q = s.subrange(0, p.len() as int + 1);
        assert(q.drop_last() =~= p);
        assert(spec_digits_value(q) == spec_digits_value(p) * 10 + spec_digit_value(q.last()));
        lemma_digits_value_monotone(q, s);
    } else {
        assert(p =~= s);
    }
}

/// `c` equals `d` where `d` is already ASCII lower case, ignoring ASCII
/// case of `c`.
pub open spec fn spec_lower_eq_char(c: char, d: char) -> bool {
    c == d || ('A' <= c && c <= 'Z' && c as int + 32 == d as int)
}

/// `s` equals the ASCII-lower-case word `k`, ignoring ASCII case in `s`.
pub open spec fn spec_eq_ignore_ascii_case(s: Seq<char>, k: Seq<char>) -> bool {
    s.len() == k.len() && (forall|i: int|
        0 <= i < s.len() ==> spec_lower_eq_char(#[trigger] s[i], k[i]))
}

pub fn eq_ignore_ascii_case(s: &str, k: &str) -> (r: bool)
    ensures
        r == spec_eq_ignore_ascii_case(s@, k@),
{
    let slen = s.unicode_len();
    let klen = k.unicode_len();
    if slen != klen {
        return false;
    }
    let mut i: usize = 0;
    while i < slen
        invariant
            slen == s@.len(),
            klen == k@.len(),
            slen == klen,
            0 <= i <= slen,
            forall|j: int| 0 <= j < i ==> spec_lower_eq_char(#[trigger] s@[j], k@[j]),
        decreases slen - i,
    {
        let c = s.get_char(i);
        let d = k.get_char(i);
        let same = c == d || ('A' <= c && c <= 'Z' && (c as u32) + 32 == (d as u32));
        if !same {
            assert(!spec_lower_eq_char(s@[i as int], k@[i as int]));
            return false;
        }
        i += 1;
    }
    true
}

pub open spec fn spec_is_space(c: char) -> bool {
    c == ' ' || c == '\t'
}

/// `s` without leading spaces and tabs.
pub open spec fn spec_trim_start(s: Seq<char>) -> Seq<char>
    decreases s.len(),
{
    if s.len() > 0 && spec_is_space(s[0]) {
        spec_trim_start(s.skip(1))
    } else {
        s
    }
}

/// `s` without trailing spaces and tabs.
pub open spec fn spec_trim_end(s: Seq<char>) -> Seq<char>
    decreases s.len(),
{
    if s.len() > 0 && spec_is_space(s.last()) {
        spec_trim_end(s.drop_last())
    } else {
        s
    }
}

/// `s` without leading or trailing spaces and tabs.
pub open spec fn spec_trim(s: Seq<char>) -> Seq<char> {
    spec_trim_end(spec_trim_start(s))
}

proof fn lemma_trim_start_range(s: Seq<char>, k: int)
    requires
        0 <= k <= s.len(),
        forall|j: int| 0 <= j < k ==> spec_is_space(s[j]),
    ensures
        spec_trim_start(s) == spec_trim_start(s.skip(k)),
    decreases k,
{
    if k > 0 {
        assert(s.skip(1).skip(k - 1) =~= s.skip(k));
        lemma_trim_start_range(s.skip(1), k - 1);
    } else {
        assert(s.skip(0) =~= s);
    }
}

proof fn lemma_trim_end_range(s: Seq<char>, k: int)
    requires
        0 <= k <= s.len(),
        forall|j: int| k <= j < s.len() ==> spec_is_space(s[j]),
    ensures
        spec_trim_end(s) == spec_trim_end(s.take(k)),
    decreases s.len() - k,
{
    if k < s.len() {
        assert(s.drop_last() =~= s.take(s.len() - 1));
        lemma_trim_end_range(s.drop_last(), k);
        assert(s.drop_last().take(k) =~= s.take(k));
    } else {
        assert(s.take(s.len() as int) =~= s);
    }
}

fn space_at(s: &str, i: usize) -> (r: bool)
    requires
        i < s@.len(),
    ensures
        r == spec_is_space(s@[i as int]),
{
    let c = s.get_char(i);
    c == ' ' || c == '\t'
}

/// Trim spaces and tabs from both ends.
pub fn trim_str(s: &str) -> (out: String)
    ensures
        out@ == spec_trim(s@),
{
    let len = s.unicode_len();
    let mut a: usize = 0;
    while a < len && space_at(s, a)
        invariant
            len == s@.len(),
            0 <= a <= len,
            forall|j: int| 0 <= j < a ==> spec_is_space(s@[j]),
        decreases len - a,
    {
        a += 1;
    }
    let mut b: usize = len;
    while b > a && space_at(s, b - 1)
        invariant
            len == s@.len(),
            a <= b <= len,
            forall|j: int| b <= j < len ==> spec_is_space(s@[j]),
        decreases b,
    {
        b -= 1;
    }
    let sub = s.substring_char(a, b);
    proof {
        lemma_trim_start_range(s@, a as int);
        let t = s@.skip(a as int);
        if a < b {
            assert(!spec_is_space(t[0]));
        }
        assert(spec_trim_start(s@) == t);
        lemma_trim_end_range(t, b - a);
        let u = t.take(b - a);
        if a < b {
            assert(!spec_is_space(u.last()));
        }
        assert(spec_trim_end(t) == u);
        assert(sub@ =~= u);
    }
    String::from_str(sub)
}

/// Split `s` on separator `c`; a string without the separator is a single
/// part, and separators at the ends yield empty parts.
pub open spec fn spec_split(s: Seq<char>, c: char) -> Seq<Seq<char>>
    decreases s.len(),
    via spec_split_dec
{
    match spec_find_from(s, 0, c) {
        None => seq![s],
        Some(i) => seq![s.subrange(0, i)] + spec_split(s.skip(i + 1), c),
    }
}

pub proof fn lemma_find_from_bounds(s: Seq<char>, from: int, c: char)
    requires
        spec_find_from(s, from, c) is Some,
    ensures
        from <= spec_find_from(s, from, c)->Some_0 < s.len(),
        s[spec_find_from(s, from, c)->Some_0] == c,
    decreases s.len() - from,
{
    if !(from < 0 || from >= s.len()) && s[from] != c {
        lemma_find_from_bounds(s, from + 1, c);
    }
}

#[via_fn]
proof fn spec_split_dec(s: Seq<char>, c: char) {
    if spec_find_from(s, 0, c) is Some {
        lemma_find_from_bounds(s, 0, c);
    }
}

/// Splitting never yields an empty list of parts.
pub proof fn lemma_split_nonempty(s: Seq<char>, c: char)
    ensures
        spec_split(s, c).len() >= 1,
{
    if spec_find_from(s, 0, c) is Some {
        lemma_find_from_bounds(s, 0, c);
    }
}

pub fn split_str(s: &str, c: char) -> (parts: Vec<String>)
    ensures
        parts.deep_view() == spec_split(s@, c),
{
    let len = s.unicode_len();
    let mut parts: Vec<String> = Vec::new();
    let mut pos: usize = 0;
    proof {
        assert(s@.skip(0) =~= s@);
        assert(parts.deep_view() =~= Seq::<Seq<char>>::empty());
        assert(parts.deep_view() + spec_split(s@, c) =~= spec_split(s@, c));
    }
    loop
        invariant
            len == s@.len(),
            0 <= pos <= len,
            spec_split(s@, c) == parts.deep_view() + spec_split(s@.skip(pos as int), c),
        decreases len - pos,
    {
        proof {
            lemma_split_prefix(s@, pos as int, c);
        }
        match find_from(s, pos, c) {
            Some(i) => {
                let part = s.substring_char(pos, i);
                proof {
                    let t = s@.skip(pos as int);
                    assert(spec_find_from(t, 0, c) == Some(i - pos)) by {
                        lemma_find_shift(s@, pos as int, c);
                    }
                    lemma_find_from_bounds(t, 0, c);
                    assert(t.subrange(0, i - pos) =~= s@.subrange(pos as int, i as int));
                    assert(t.skip(i - pos + 1) =~= s@.skip(i as int + 1));
                    assert((parts.deep_view() + seq![part@]) + spec_split(
                        s@.skip(i as int + 1),
                        c,
                    ) =~= parts.deep_view() + spec_split(s@.skip(pos as int), c));
                }
                parts.push(part.to_owned());
                pos = i + 1;
            },
            None => {
                let part = s.substring_char(pos, len);
                proof {
                    let t = s@.skip(pos as int);
                    assert(spec_find_from(t, 0, c) is None) by {
                        lemma_find_shift(s@, pos as int, c);
                    }
                    assert(part@ =~= t);
                    assert(parts.deep_view() + seq![part@] =~= parts.deep_view() + spec_split(
                        s@.skip(pos as int),
                        c,
                    ));
                }
                parts.push(part.to_owned());
                return parts;
            },
        }
    }
}

/// Searching from `pos` in `s` is searching from the front of `s.skip(pos)`.
proof fn lemma_find_shift(s: Seq<char>, pos: int, c: char)
    requires
        0 <= pos <= s.len(),
    ensures
        match spec_find_from(s, pos, c) {
            Some(i) => spec_find_from(s.skip(pos), 0, c) == Some(i - pos),
            None => spec_find_from(s.skip(pos), 0, c) is None,
        },
{
    lemma_find_shift_gen(s, pos, 0, c);
}

proof fn lemma_find_shift_gen(s: Seq<char>, pos: int, k: int, c: char)
    requires
        0 <= pos <= s.len(),
        0 <= k <= s.len() - pos,
    ensures
        match spec_find_from(s, pos + k, c) {
            Some(i) => spec_find_from(s.skip(pos), k, c) == Some(i - pos),
            None => spec_find_from(s.skip(pos), k, c) is None,
        },
    decreases s.len() - pos - k,
{
    let t = s.skip(pos);
    if pos + k < s.len() {
        assert(t[k] == s[pos + k]);
        if s[pos + k] != c {
            lemma_find_shift_gen(s, pos, k + 1, c);
        }
    }
}

proof fn lemma_split_prefix(s: Seq<char>, pos: int, c: char)
    requires
        0 <= pos <= s.len(),
    ensures
        spec_split(s.skip(pos), c).len() >= 1,
{
    lemma_split_nonempty(s.skip(pos), c);
}

} // verus!
