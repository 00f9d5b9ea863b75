//! Encoding an entity record as a flat list of string tokens, for the disk
//! tier of the cache. The token-list parser is the single source of truth:
//! the decoder is proved to match it, and the encoder is proved to emit
//! token lists the parser maps back to the encoded entity, so a spilled
//! entity read back is the entity that was stored.

use crate::entity::{
    Entity, EntityKind, EntityView, Qualifier, QualifierView, SnakDataType, SnakValue,
    SnakValueView, Statement, StatementRank, StatementView, spec_pairs_view,
};
use crate::text::{spec_all_digits, spec_digit_value, spec_digits_value, spec_is_digit, spec_parse_u64, parse_u64};
use vstd::prelude::*;

verus! {

pub type Toks = Seq<Seq<char>>;

/// The token at `pos`, if any.
pub open spec fn sp_tok(t: Toks, pos: int) -> Option<Seq<char>> {
    if 0 <= pos < t.len() {
        Some(t[pos])
    } else {
        None
    }
}

/// A count token: a decimal number.
pub open spec fn sp_count(t: Toks, pos: int) -> Option<(int, int)> {
    match sp_tok(t, pos) {
        Some(s) => match spec_parse_u64(s) {
            Some(n) => Some((n as int, pos + 1)),
            None => None,
        },
        None => None,
    }
}

/// `n` pairs of tokens.
pub open spec fn sp_pairs(t: Toks, pos: int, n: int) -> Option<
    (Seq<(Seq<char>, Seq<char>)>, int),
>
    decreases n,
{
    if n <= 0 {
        Some((Seq::empty(), pos))
    } else {
        match (sp_tok(t, pos), sp_tok(t, pos + 1)) {
            (Some(a), Some(b)) => match sp_pairs(t, pos + 2, n - 1) {
                Some((rest, p)) => Some((seq![(a, b)] + rest, p)),
                None => None,
            },
            _ => None,
        }
    }
}

pub open spec fn sp_kind(s: Seq<char>) -> Option<EntityKind> {
    if s == "item"@ {
        Some(EntityKind::Item)
    } else if s == "property"@ {
        Some(EntityKind::Property)
    } else {
        None
    }
}

pub open spec fn sp_rank(s: Seq<char>) -> Option<StatementRank> {
    if s == "preferred"@ {
        Some(StatementRank::Preferred)
    } else if s == "normal"@ {
        Some(StatementRank::Normal)
    } else if s == "deprecated"@ {
        Some(StatementRank::Deprecated)
    } else {
        None
    }
}

pub open spec fn sp_dt(s: Seq<char>) -> Option<SnakDataType> {
    if s == "wikibase-item"@ {
        Some(SnakDataType::WikibaseItem)
    } else if s == "string"@ {
        Some(SnakDataType::StringType)
    } else if s == "external-id"@ {
        Some(SnakDataType::ExternalId)
    } else if s == "commons-media"@ {
        Some(SnakDataType::CommonsMedia)
    } else if s == "time"@ {
        Some(SnakDataType::Time)
    } else if s == "quantity"@ {
        Some(SnakDataType::Quantity)
    } else if s == "globe-coordinate"@ {
        Some(SnakDataType::GlobeCoordinate)
    } else if s == "monolingualtext"@ {
        Some(SnakDataType::MonolingualText)
    } else if s == "url"@ {
        Some(SnakDataType::Url)
    } else if s == "other"@ {
        Some(SnakDataType::Other)
    } else {
        None
    }
}

pub open spec fn sp_opt_dt(s: Seq<char>) -> Option<Option<SnakDataType>> {
    if s == "none"@ {
        Some(None)
    } else {
        match sp_dt(s) {
            Some(d) => Some(Some(d)),
            None => None,
        }
    }
}

/// A snak value: a tag token and its payload tokens.
pub open spec fn sp_value(t: Toks, pos: int) -> Option<(SnakValueView, int)> {
    match sp_tok(t, pos) {
        None => None,
        Some(tag) => {
            if tag == "novalue"@ {
                Some((SnakValueView::NoValue, pos + 1))
            } else if tag == "ent"@ {
                match sp_tok(t, pos + 1) {
                    Some(v) => Some((SnakValueView::Entity(v), pos + 2)),
                    None => None,
                }
            } else if tag == "str"@ {
                match sp_tok(t, pos + 1) {
                    Some(v) => Some((SnakValueView::StringValue(v), pos + 2)),
                    None => None,
                }
            } else if tag == "time"@ {
                match sp_tok(t, pos + 1) {
                    Some(v) => Some((SnakValueView::Time(v), pos + 2)),
                    None => None,
                }
            } else if tag == "qty"@ {
                match sp_tok(t, pos + 1) {
                    Some(v) => Some((SnakValueView::Quantity(v), pos + 2)),
                    None => None,
                }
            } else if tag == "coord"@ {
                match (sp_tok(t, pos + 1), sp_tok(t, pos + 2)) {
                    (Some(a), Some(b)) => Some((SnakValueView::Coordinate(a, b), pos + 3)),
                    _ => None,
                }
            } else if tag == "mono"@ {
                match (sp_tok(t, pos + 1), sp_tok(t, pos + 2)) {
                    (Some(a), Some(b)) => Some((SnakValueView::MonolingualText(a, b), pos + 3)),
                    _ => None,
                }
            } else {
                None
            }
        },
    }
}

/// `n` qualifiers: property, datatype, value each.
pub open spec fn sp_quals(t: Toks, pos: int, n: int) -> Option<(Seq<QualifierView>, int)>
    decreases n,
{
    if n <= 0 {
        Some((Seq::empty(), pos))
    } else {
        match (sp_tok(t, pos), sp_tok(t, pos + 1)) {
            (Some(prop), Some(dts)) => match sp_dt(dts) {
                Some(dt) => match sp_value(t, pos + 2) {
                    Some((v, p)) => match sp_quals(t, p, n - 1) {
                        Some((rest, p2)) => Some(
                            (
                                seq![QualifierView { property: prop, datatype: dt, value: v }]
                                    + rest,
                                p2,
                            ),
                        ),
                        None => None,
                    },
                    None => None,
                },
                None => None,
            },
            _ => None,
        }
    }
}

/// `n` statements: property, rank, datatype, value, then the qualifiers
/// with their own count.
pub open spec fn sp_stmts(t: Toks, pos: int, n: int) -> Option<(Seq<StatementView>, int)>
    decreases n,
{
    if n <= 0 {
        Some((Seq::empty(), pos))
    } else {
        match (sp_tok(t, pos), sp_tok(t, pos + 1), sp_tok(t, pos + 2)) {
            (Some(prop), Some(ranks), Some(dts)) => match (sp_rank(ranks), sp_dt(dts)) {
                (Some(rank), Some(dt)) => match sp_value(t, pos + 3) {
                    Some((v, p)) => match sp_count(t, p) {
                        Some((qn, p2)) => match sp_quals(t, p2, qn) {
                            Some((qs, p3)) => match sp_stmts(t, p3, n - 1) {
                                Some((rest, p4)) => Some(
                                    (
                                        seq![
                                            StatementView {
                                                property: prop,
                                                rank: rank,
                                                datatype: dt,
                                                value: v,
                                                qualifiers: qs,
                                            },
                                        ] + rest,
                                        p4,
                                    ),
                                ),
                                None => None,
                            },
                            None => None,
                        },
                        None => None,
                    },
                    None => None,
                },
                _ => None,
            },
            _ => None,
        }
    }
}

/// A whole entity record, parsed from the front of the token list.
pub open spec fn sp_entity(t: Toks) -> Option<EntityView> {
    match (sp_tok(t, 0), sp_tok(t, 1), sp_tok(t, 2)) {
        (Some(id), Some(kinds), Some(dts)) => match (sp_kind(kinds), sp_opt_dt(dts)) {
            (Some(kind), Some(datatype)) => match sp_count(t, 3) {
                Some((n1, p)) => match sp_pairs(t, p, n1) {
                    Some((labels, p2)) => match sp_count(t, p2) {
                        Some((n2, p3)) => match sp_pairs(t, p3, n2) {
                            Some((sitelinks, p4)) => match sp_count(t, p4) {
                                Some((n3, p5)) => match sp_stmts(t, p5, n3) {
                                    Some((statements, _p6)) => Some(
                                        EntityView {
                                            id,
                                            kind,
                                            labels,
                                            sitelinks,
                                            statements,
                                            datatype,
                                        },
                                    ),
                                    None => None,
                                },
                                None => None,
                            },
                            None => None,
                        },
                        None => None,
                    },
                    None => None,
                },
                None => None,
            },
            _ => None,
        },
        _ => None,
    }
}


proof fn lemma_pairs_bounds(t: Toks, pos: int, n: int)
    requires
        pos <= t.len(),
        sp_pairs(t, pos, n) is Some,
    ensures
        pos <= sp_pairs(t, pos, n)->Some_0.1 <= t.len(),
        sp_pairs(t, pos, n)->Some_0.0.len() == (if n <= 0 {
            0
        } else {
            n
        }),
    decreases n,
{
    if n > 0 {
        lemma_pairs_bounds(t, pos + 2, n - 1);
    }
}

proof fn lemma_value_bounds(t: Toks, pos: int)
    requires
        sp_value(t, pos) is Some,
    ensures
        pos < sp_value(t, pos)->Some_0.1 <= t.len(),
{
}

proof fn lemma_quals_bounds(t: Toks, pos: int, n: int)
    requires
        pos <= t.len(),
        sp_quals(t, pos, n) is Some,
    ensures
        pos <= sp_quals(t, pos, n)->Some_0.1 <= t.len(),
        sp_quals(t, pos, n)->Some_0.0.len() == (if n <= 0 {
            0
        } else {
            n
        }),
    decreases n,
{
    if n > 0 {
        lemma_value_bounds(t, pos + 2);
        let p = sp_value(t, pos + 2)->Some_0.1;
        lemma_quals_bounds(t, p, n - 1);
    }
}

proof fn lemma_stmts_bounds(t: Toks, pos: int, n: int)
    requires
        pos <= t.len(),
        sp_stmts(t, pos, n) is Some,
    ensures
        pos <= sp_stmts(t, pos, n)->Some_0.1 <= t.len(),
        sp_stmts(t, pos, n)->Some_0.0.len() == (if n <= 0 {
            0
        } else {
            n
        }),
    decreases n,
{
    if n > 0 {
        lemma_value_bounds(t, pos + 3);
        let p = sp_value(t, pos + 3)->Some_0.1;
        let p2 = sp_count(t, p)->Some_0.1;
        let qn = sp_count(t, p)->Some_0.0;
        lemma_quals_bounds(t, p2, qn);
        let p3 = sp_quals(t, p2, qn)->Some_0.1;
        lemma_stmts_bounds(t, p3, n - 1);
    }
}

/// The token at `pos`, reading the list's view.
fn d_tok<'a>(toks: &'a Vec<String>, pos: usize) -> (r: Option<&'a String>)
    ensures
        match r {
            Some(s) => sp_tok(toks.deep_view(), pos as int) == Some(s@) && pos < toks@.len(),
            None => sp_tok(toks.deep_view(), pos as int) is None,
        },
{
    proof {
        assert(toks.deep_view().len() == toks@.len());
    }
    if pos < toks.len() {
        proof {
            assert(toks.deep_view()[pos as int] == toks@[pos as int]@);
        }
        Some(&toks[pos])
    } else {
        None
    }
}

/// The token at `pos + off`, with the position after it; guards every
/// index computation against overflow.
fn d_tok_off<'a>(toks: &'a Vec<String>, pos: usize, off: usize) -> (r: Option<(&'a String, usize)>)
    ensures
        match r {
            Some((s, nx)) => sp_tok(toks.deep_view(), pos as int + off as int) == Some(s@)
                && nx as int == pos as int + off as int + 1 && nx <= toks@.len(),
            None => sp_tok(toks.deep_view(), pos as int + off as int) is None,
        },
{
    proof {
        assert(toks.deep_view().len() == toks@.len());
    }
    if pos >= toks.len() {
        return None;
    }
    let rem = toks.len() - pos - 1;
    if off > rem {
        return None;
    }
    let idx = pos + off;
    proof {
        assert(toks.deep_view()[idx as int] == toks@[idx as int]@);
    }
    Some((&toks[idx], idx + 1))
}

fn d_count(toks: &Vec<String>, pos: usize) -> (r: Option<(u64, usize)>)
    ensures
        match r {
            Some((n, p)) => sp_count(toks.deep_view(), pos as int) == Some((n as int, p as int))
                && p as int == pos + 1 && p <= toks@.len(),
            None => sp_count(toks.deep_view(), pos as int) is None,
        },
{
    let tlen = toks.len();
    proof {
        assert(toks@.len() == tlen);
    }
    match d_tok(toks, pos) {
        Some(s) => {
            match parse_u64(s.as_str()) {
                Some(n) => Some((n, pos + 1)),
                None => None,
            }
        },
        None => None,
    }
}

fn d_pairs(toks: &Vec<String>, pos: usize, n: u64) -> (r: Option<(Vec<(String, String)>, usize)>)
    requires
        pos <= toks@.len(),
    ensures
        match r {
            Some((v, p)) => sp_pairs(toks.deep_view(), pos as int, n as int) == Some(
                (spec_pairs_view(v@), p as int),
            ) && p >= pos && p <= toks@.len() + 1,
            None => sp_pairs(toks.deep_view(), pos as int, n as int) is None,
        },
{
    let ghost tv = toks.deep_view();
    let mut out: Vec<(String, String)> = Vec::new();
    proof {
        assert(spec_pairs_view(out@) =~= Seq::<(Seq<char>, Seq<char>)>::empty());
        assert(tv.len() == toks@.len());
    }
    if n == 0 {
        return Some((out, pos));
    }
    if pos >= toks.len() {
        return None;
    }
    let mut cur: usize = pos;
    let mut i: u64 = 0;
    while i < n
        invariant
            tv == toks.deep_view(),
            tv.len() == toks@.len(),
            0 <= i <= n,
            pos <= cur,
            i == out@.len(),
            cur <= toks@.len() + 1,
            (match sp_pairs(tv, cur as int, n - i) {
                Some((rest, p)) => sp_pairs(tv, pos as int, n as int) == Some(
                    (spec_pairs_view(out@) + rest, p),
                ),
                None => sp_pairs(tv, pos as int, n as int) is None,
            }),
        decreases n - i,
    {
        let a = match d_tok(toks, cur) {
            Some(x) => x.clone(),
            None => {
                return None;
            },
        };
        let (b, nx) = match d_tok_off(toks, cur, 1) {
            Some(x) => (x.0.clone(), x.1),
            None => {
                return None;
            },
        };
        let ghost outb = out@;
        out.push((a, b));
        proof {
            assert(spec_pairs_view(out@) =~= spec_pairs_view(outb) + seq![
                (tv[cur as int], tv[cur as int + 1]),
            ]) by {
                assert(out@ == outb.push((out@[outb.len() as int].0, out@[outb.len() as int].1)));
                assert forall|k: int| 0 <= k < out@.len() implies spec_pairs_view(out@)[k] == (
                    spec_pairs_view(outb) + seq![(tv[cur as int], tv[cur as int + 1])])[k] by {
                    if k < outb.len() {
                        assert(out@[k] == outb[k]);
                    }
                }
            }
            if sp_pairs(tv, cur as int, n - i) is Some {
                let rest0 = sp_pairs(tv, cur as int, n - i)->Some_0.0;
                assert(rest0 == seq![(tv[cur as int], tv[cur as int + 1])] + sp_pairs(
                    tv,
                    cur as int + 2,
                    n - i - 1,
                )->Some_0.0);
                assert(spec_pairs_view(outb) + rest0 =~= spec_pairs_view(out@) + sp_pairs(
                    tv,
                    cur as int + 2,
                    n - i - 1,
                )->Some_0.0);
            }
        }
        cur = nx;
        i = i + 1;
    }
    proof {
        assert(spec_pairs_view(out@) + Seq::<(Seq<char>, Seq<char>)>::empty() =~= spec_pairs_view(
            out@,
        ));
    }
    Some((out, cur))
}

fn d_value(toks: &Vec<String>, pos: usize) -> (r: Option<(SnakValue, usize)>)
    ensures
        match r {
            Some((v, p)) => sp_value(toks.deep_view(), pos as int) == Some(
                (v.deep_view(), p as int),
            ) && p > pos && p <= toks@.len(),
            None => sp_value(toks.deep_view(), pos as int) is None,
        },
{
    proof {
        assert(toks.deep_view().len() == toks@.len());
    }
    let tag = match d_tok(toks, pos) {
        Some(x) => x,
        None => {
            return None;
        },
    };
    let tlen = toks.len();
    proof {
        assert(toks@.len() == tlen);
    }
    let t = tag.as_str();
    if crate::text::str_eq(t, "novalue") {
        return Some((SnakValue::NoValue, pos + 1));
    }
    if crate::text::str_eq(t, "ent") {
        return match d_tok_off(toks, pos, 1) {
            Some((v, nx)) => Some((SnakValue::Entity(v.clone()), nx)),
            None => None,
        };
    }
    if crate::text::str_eq(t, "str") {
        return match d_tok_off(toks, pos, 1) {
            Some((v, nx)) => Some((SnakValue::StringValue(v.clone()), nx)),
            None => None,
        };
    }
    if crate::text::str_eq(t, "time") {
        return match d_tok_off(toks, pos, 1) {
            Some((v, nx)) => Some((SnakValue::Time(v.clone()), nx)),
            None => None,
        };
    }
    if crate::text::str_eq(t, "qty") {
        return match d_tok_off(toks, pos, 1) {
            Some((v, nx)) => Some((SnakValue::Quantity(v.clone()), nx)),
            None => None,
        };
    }
    if crate::text::str_eq(t, "coord") {
        return match (d_tok_off(toks, pos, 1), d_tok_off(toks, pos, 2)) {
            (Some((a, _)), Some((b, nx))) => Some(
                (SnakValue::Coordinate(a.clone(), b.clone()), nx),
            ),
            _ => None,
        };
    }
    if crate::text::str_eq(t, "mono") {
        return match (d_tok_off(toks, pos, 1), d_tok_off(toks, pos, 2)) {
            (Some((a, _)), Some((b, nx))) => Some(
                (SnakValue::MonolingualText(a.clone(), b.clone()), nx),
            ),
            _ => None,
        };
    }
    None
}

fn d_dt(s: &str) -> (r: Option<SnakDataType>)
    ensures
        r == sp_dt(s@),
{
    if crate::text::str_eq(s, "wikibase-item") {
        Some(SnakDataType::WikibaseItem)
    } else if crate::text::str_eq(s, "string") {
        Some(SnakDataType::StringType)
    } else if crate::text::str_eq(s, "external-id") {
        Some(SnakDataType::ExternalId)
    } else if crate::text::str_eq(s, "commons-media") {
        Some(SnakDataType::CommonsMedia)
    } else if crate::text::str_eq(s, "time") {
        Some(SnakDataType::Time)
    } else if crate::text::str_eq(s, "quantity") {
        Some(SnakDataType::Quantity)
    } else if crate::text::str_eq(s, "globe-coordinate") {
        Some(SnakDataType::GlobeCoordinate)
    } else if crate::text::str_eq(s, "monolingualtext") {
        Some(SnakDataType::MonolingualText)
    } else if crate::text::str_eq(s, "url") {
        Some(SnakDataType::Url)
    } else if crate::text::str_eq(s, "other") {
        Some(SnakDataType::Other)
    } else {
        None
    }
}

fn d_quals(toks: &Vec<String>, pos: usize, n: u64) -> (r: Option<(Vec<Qualifier>, usize)>)
    requires
        pos <= toks@.len(),
    ensures
        match r {
            Some((v, p)) => sp_quals(toks.deep_view(), pos as int, n as int) == Some(
                (v.deep_view(), p as int),
            ) && p >= pos && p <= toks@.len() + 1,
            None => sp_quals(toks.deep_view(), pos as int, n as int) is None,
        },
{
    let ghost tv = toks.deep_view();
    let mut out: Vec<Qualifier> = Vec::new();
    proof {
        assert(out.deep_view() =~= Seq::<QualifierView>::empty());
        assert(tv.len() == toks@.len());
    }
    if n == 0 {
        return Some((out, pos));
    }
    if pos >= toks.len() {
        return None;
    }
    let mut cur: usize = pos;
    let mut i: u64 = 0;
    while i < n
        invariant
            tv == toks.deep_view(),
            tv.len() == toks@.len(),
            0 <= i <= n,
            pos <= cur,
            i == out@.len(),
            cur <= toks@.len() + 1,
            (match sp_quals(tv, cur as int, n - i) {
                Some((rest, p)) => sp_quals(tv, pos as int, n as int) == Some(
                    (out.deep_view() + rest, p),
                ),
                None => sp_quals(tv, pos as int, n as int) is None,
            }),
        decreases n - i,
    {
        let prop = match d_tok(toks, cur) {
            Some(x) => x.clone(),
            None => {
                return None;
            },
        };
        let (dts, nx1) = match d_tok_off(toks, cur, 1) {
            Some(x) => x,
            None => {
                return None;
            },
        };
        let dt = match d_dt(dts.as_str()) {
            Some(d) => d,
            None => {
                return None;
            },
        };
        let (value, p) = match d_value(toks, nx1) {
            Some(x) => x,
            None => {
                return None;
            },
        };
        let ghost outb = out.deep_view();
        let q = Qualifier { property: prop, datatype: dt, value };
        let ghost qv = q.deep_view();
        out.push(q);
        proof {
            assert(out.deep_view() =~= outb.push(qv)) by {
                assert forall|k: int| 0 <= k < out@.len() implies out.deep_view()[k]
                    == outb.push(qv)[k] by {
                    assert(out.deep_view()[k] == out@[k].deep_view());
                    if k < outb.len() {
                        assert(outb[k] == out@[k].deep_view());
                    }
                }
            }
            if sp_quals(tv, cur as int, n - i) is Some {
                let rest0 = sp_quals(tv, cur as int, n - i)->Some_0.0;
                assert(rest0 == seq![qv] + sp_quals(tv, p as int, n - i - 1)->Some_0.0);
                assert(outb + rest0 =~= out.deep_view() + sp_quals(
                    tv,
                    p as int,
                    n - i - 1,
                )->Some_0.0);
            }
        }
        cur = p;
        i = i + 1;
    }
    proof {
        assert(out.deep_view() + Seq::<QualifierView>::empty() =~= out.deep_view());
    }
    Some((out, cur))
}

fn d_stmts(toks: &Vec<String>, pos: usize, n: u64) -> (r: Option<(Vec<Statement>, usize)>)
    requires
        pos <= toks@.len(),
    ensures
        match r {
            Some((v, p)) => sp_stmts(toks.deep_view(), pos as int, n as int) == Some(
                (v.deep_view(), p as int),
            ) && p >= pos && p <= toks@.len() + 1,
            None => sp_stmts(toks.deep_view(), pos as int, n as int) is None,
        },
{
    let ghost tv = toks.deep_view();
    let mut out: Vec<Statement> = Vec::new();
    proof {
        assert(out.deep_view() =~= Seq::<StatementView>::empty());
        assert(tv.len() == toks@.len());
    }
    if n == 0 {
        return Some((out, pos));
    }
    if pos >= toks.len() {
        return None;
    }
    let mut cur: usize = pos;
    let mut i: u64 = 0;
    while i < n
        invariant
            tv == toks.deep_view(),
            tv.len() == toks@.len(),
            0 <= i <= n,
            pos <= cur,
            i == out@.len(),
            cur <= toks@.len() + 1,
            (match sp_stmts(tv, cur as int, n - i) {
                Some((rest, p)) => sp_stmts(tv, pos as int, n as int) == Some(
                    (out.deep_view() + rest, p),
                ),
                None => sp_stmts(tv, pos as int, n as int) is None,
            }),
        decreases n - i,
    {
        let prop = match d_tok(toks, cur) {
            Some(x) => x.clone(),
            None => {
                return None;
            },
        };
        let ranks = match d_tok_off(toks, cur, 1) {
            Some(x) => x.0,
            None => {
                return None;
            },
        };
        let rank = if crate::text::str_eq(ranks.as_str(), "preferred") {
            StatementRank::Preferred
        } else if crate::text::str_eq(ranks.as_str(), "normal") {
            StatementRank::Normal
        } else if crate::text::str_eq(ranks.as_str(), "deprecated") {
            StatementRank::Deprecated
        } else {
            return None;
        };
        let (dts, nx2) = match d_tok_off(toks, cur, 2) {
            Some(x) => x,
            None => {
                return None;
            },
        };
        let dt = match d_dt(dts.as_str()) {
            Some(d) => d,
            None => {
                return None;
            },
        };
        let (value, p) = match d_value(toks, nx2) {
            Some(x) => x,
            None => {
                return None;
            },
        };
        let (qn, p2) = match d_count(toks, p) {
            Some(x) => x,
            None => {
                return None;
            },
        };
        let (qualifiers, p3) = match d_quals(toks, p2, qn) {
            Some(x) => x,
            None => {
                return None;
            },
        };
        let ghost outb = out.deep_view();
        let st = Statement { property: prop, rank, datatype: dt, value, qualifiers };
        let ghost sv = st.deep_view();
        out.push(st);
        proof {
            assert(out.deep_view() =~= outb.push(sv)) by {
                assert forall|k: int| 0 <= k < out@.len() implies out.deep_view()[k]
                    == outb.push(sv)[k] by {
                    assert(out.deep_view()[k] == out@[k].deep_view());
                    if k < outb.len() {
                        assert(outb[k] == out@[k].deep_view());
                    }
                }
            }
            if sp_stmts(tv, cur as int, n - i) is Some {
                let rest0 = sp_stmts(tv, cur as int, n - i)->Some_0.0;
                assert(rest0 == seq![sv] + sp_stmts(tv, p3 as int, n - i - 1)->Some_0.0);
                assert(outb + rest0 =~= out.deep_view() + sp_stmts(
                    tv,
                    p3 as int,
                    n - i - 1,
                )->Some_0.0);
            }
        }
        cur = p3;
        i = i + 1;
    }
    proof {
        assert(out.deep_view() + Seq::<StatementView>::empty() =~= out.deep_view());
    }
    Some((out, cur))
}

/// Decode an entity from its token list; exactly the records the parser
/// accepts decode.
pub fn entity_from_tokens(toks: &Vec<String>) -> (r: Option<Entity>)
    ensures
        match r {
            Some(e) => sp_entity(toks.deep_view()) == Some(e.deep_view()),
            None => sp_entity(toks.deep_view()) is None,
        },
{
    let id = match d_tok(toks, 0) {
        Some(x) => x.clone(),
        None => {
            return None;
        },
    };
    let kinds = match d_tok(toks, 1) {
        Some(x) => x,
        None => {
            return None;
        },
    };
    let kind = if crate::text::str_eq(kinds.as_str(), "item") {
        EntityKind::Item
    } else if crate::text::str_eq(kinds.as_str(), "property") {
        EntityKind::Property
    } else {
        return None;
    };
    let dts = match d_tok(toks, 2) {
        Some(x) => x,
        None => {
            return None;
        },
    };
    let datatype = if crate::text::str_eq(dts.as_str(), "none") {
        None
    } else {
        match d_dt(dts.as_str()) {
            Some(d) => Some(d),
            None => {
                return None;
            },
        }
    };
    let (n1, p) = match d_count(toks, 3) {
        Some(x) => x,
        None => {
            return None;
        },
    };
    let (labels, p2) = match d_pairs(toks, p, n1) {
        Some(x) => x,
        None => {
            return None;
        },
    };
    let (n2, p3) = match d_count(toks, p2) {
        Some(x) => x,
        None => {
            return None;
        },
    };
    let (sitelinks, p4) = match d_pairs(toks, p3, n2) {
        Some(x) => x,
        None => {
            return None;
        },
    };
    let (n3, p5) = match d_count(toks, p4) {
        Some(x) => x,
        None => {
            return None;
        },
    };
    let (statements, _p6) = match d_stmts(toks, p5, n3) {
        Some(x) => x,
        None => {
            return None;
        },
    };
    Some(Entity { id, kind, labels, sitelinks, statements, datatype })
}

/// The decimal digits of `n`, most significant first.
pub open spec fn spec_dec_digits(n: int) -> Seq<char>
    decreases n,
{
    if n < 10 {
        seq![spec_digit_char(if n < 0 {
            0
        } else {
            n
        })]
    } else {
        spec_dec_digits(n / 10) + seq![spec_digit_char(n % 10)]
    }
}

pub open spec fn spec_digit_char(d: int) -> char {
    if d == 0 {
        '0'
    } else if d == 1 {
        '1'
    } else if d == 2 {
        '2'
    } else if d == 3 {
        '3'
    } else if d == 4 {
        '4'
    } else if d == 5 {
        '5'
    } else if d == 6 {
        '6'
    } else if d == 7 {
        '7'
    } else if d == 8 {
        '8'
    } else {
        '9'
    }
}

/// Rendering a number and parsing it back are inverse.
proof fn lemma_dec_digits(n: int)
    requires
        0 <= n <= u64::MAX,
    ensures
        spec_all_digits(spec_dec_digits(n)),
        spec_dec_digits(n).len() >= 1,
        spec_digits_value(spec_dec_digits(n)) == n,
        spec_parse_u64(spec_dec_digits(n)) == Some(n as u64),
    decreases n,
{
    if n < 10 {
        let s = spec_dec_digits(n);
        assert(s.len() == 1);
        assert(spec_is_digit(s[0]));
        assert(s.drop_last() =~= Seq::<char>::empty());
        assert(spec_digits_value(Seq::<char>::empty()) == 0);
        assert(spec_digits_value(s) == spec_digit_value(s[0]));
    } else {
        lemma_dec_digits(n / 10);
        let s = spec_dec_digits(n);
        let hi = spec_dec_digits(n / 10);
        assert(s.drop_last() =~= hi);
        assert(s.last() == spec_digit_char(n % 10));
        assert(spec_is_digit(spec_digit_char(n % 10)));
        assert(spec_digit_value(spec_digit_char(n % 10)) == n % 10);
        assert forall|i: int| 0 <= i < s.len() implies spec_is_digit(#[trigger] s[i]) by {
            if i < hi.len() {
                assert(s[i] == hi[i]);
            }
        }
        assert(spec_digits_value(s) == spec_digits_value(hi) * 10 + (n % 10));
    }
}

fn digit_str(d: u64) -> (r: &'static str)
    requires
        d < 10,
    ensures
        r@ == seq![spec_digit_char(d as int)],
{
    proof {
        reveal_strlit("0");
        reveal_strlit("1");
        reveal_strlit("2");
        reveal_strlit("3");
        reveal_strlit("4");
        reveal_strlit("5");
        reveal_strlit("6");
        reveal_strlit("7");
        reveal_strlit("8");
        reveal_strlit("9");
    }
    let r = if d == 0 {
        "0"
    } else if d == 1 {
        "1"
    } else if d == 2 {
        "2"
    } else if d == 3 {
        "3"
    } else if d == 4 {
        "4"
    } else if d == 5 {
        "5"
    } else if d == 6 {
        "6"
    } else if d == 7 {
        "7"
    } else if d == 8 {
        "8"
    } else {
        "9"
    };
    proof {
        assert(r@ =~= seq![spec_digit_char(d as int)]);
    }
    r
}

/// Render a number as decimal text.
pub fn u64_string(n: u64) -> (r: String)
    ensures
        r@ == spec_dec_digits(n as int),
    decreases n,
{
    if n < 10 {
        String::from_str(digit_str(n))
    } else {
        let mut s = u64_string(n / 10);
        s.append(digit_str(n % 10));
        s
    }
}

/// The token list one snak value encodes to.
pub open spec fn toks_of_value(v: SnakValueView) -> Toks {
    match v {
        SnakValueView::NoValue => seq!["novalue"@],
        SnakValueView::Entity(x) => seq!["ent"@, x],
        SnakValueView::StringValue(x) => seq!["str"@, x],
        SnakValueView::Time(x) => seq!["time"@, x],
        SnakValueView::Quantity(x) => seq!["qty"@, x],
        SnakValueView::Coordinate(a, b) => seq!["coord"@, a, b],
        SnakValueView::MonolingualText(a, b) => seq!["mono"@, a, b],
    }
}

pub open spec fn dt_tok_of(dt: SnakDataType) -> Seq<char> {
    match dt {
        SnakDataType::WikibaseItem => "wikibase-item"@,
        SnakDataType::StringType => "string"@,
        SnakDataType::ExternalId => "external-id"@,
        SnakDataType::CommonsMedia => "commons-media"@,
        SnakDataType::Time => "time"@,
        SnakDataType::Quantity => "quantity"@,
        SnakDataType::GlobeCoordinate => "globe-coordinate"@,
        SnakDataType::MonolingualText => "monolingualtext"@,
        SnakDataType::Url => "url"@,
        SnakDataType::Other => "other"@,
    }
}

pub open spec fn rank_tok_of(rank: StatementRank) -> Seq<char> {
    match rank {
        StatementRank::Preferred => "preferred"@,
        StatementRank::Normal => "normal"@,
        StatementRank::Deprecated => "deprecated"@,
    }
}

pub open spec fn kind_tok_of(kind: EntityKind) -> Seq<char> {
    match kind {
        EntityKind::Item => "item"@,
        EntityKind::Property => "property"@,
    }
}

pub open spec fn opt_dt_tok_of(dt: Option<SnakDataType>) -> Seq<char> {
    match dt {
        None => "none"@,
        Some(d) => dt_tok_of(d),
    }
}

pub open spec fn toks_of_pairs(ps: Seq<(Seq<char>, Seq<char>)>) -> Toks
    decreases ps.len(),
{
    if ps.len() == 0 {
        Seq::empty()
    } else {
        seq![ps[0].0, ps[0].1] + toks_of_pairs(ps.skip(1))
    }
}

pub open spec fn toks_of_qual(q: QualifierView) -> Toks {
    seq![q.property, dt_tok_of(q.datatype)] + toks_of_value(q.value)
}

pub open spec fn toks_of_quals(qs: Seq<QualifierView>) -> Toks
    decreases qs.len(),
{
    if qs.len() == 0 {
        Seq::empty()
    } else {
        toks_of_qual(qs[0]) + toks_of_quals(qs.skip(1))
    }
}

pub open spec fn toks_of_stmt(st: StatementView) -> Toks {
    seq![st.property, rank_tok_of(st.rank), dt_tok_of(st.datatype)] + toks_of_value(st.value)
        + seq![spec_dec_digits(st.qualifiers.len() as int)] + toks_of_quals(st.qualifiers)
}

pub open spec fn toks_of_stmts(sts: Seq<StatementView>) -> Toks
    decreases sts.len(),
{
    if sts.len() == 0 {
        Seq::empty()
    } else {
        toks_of_stmt(sts[0]) + toks_of_stmts(sts.skip(1))
    }
}

/// The token list a whole entity record encodes to.
pub open spec fn toks_of_entity(ev: EntityView) -> Toks {
    seq![ev.id, kind_tok_of(ev.kind), opt_dt_tok_of(ev.datatype)] + seq![
        spec_dec_digits(ev.labels.len() as int),
    ] + toks_of_pairs(ev.labels) + seq![spec_dec_digits(ev.sitelinks.len() as int)]
        + toks_of_pairs(ev.sitelinks) + seq![spec_dec_digits(ev.statements.len() as int)]
        + toks_of_stmts(ev.statements)
}

/// A datatype token is never a value tag.
proof fn lemma_dt_tok_sound(dt: SnakDataType)
    ensures
        sp_dt(dt_tok_of(dt)) == Some(dt),
{
    reveal_strlit("wikibase-item");
    reveal_strlit("string");
    reveal_strlit("external-id");
    reveal_strlit("commons-media");
    reveal_strlit("time");
    reveal_strlit("quantity");
    reveal_strlit("globe-coordinate");
    reveal_strlit("monolingualtext");
    reveal_strlit("url");
    reveal_strlit("other");
    match dt {
        SnakDataType::WikibaseItem => {
            assert(dt_tok_of(dt) == "wikibase-item"@);
            assert(sp_dt("wikibase-item"@) == Some(SnakDataType::WikibaseItem));
        },
        SnakDataType::StringType => {
            assert(dt_tok_of(dt) == "string"@);
            assert(sp_dt("string"@) == Some(SnakDataType::StringType));
        },
        SnakDataType::ExternalId => {
            assert(dt_tok_of(dt) == "external-id"@);
            assert(sp_dt("external-id"@) == Some(SnakDataType::ExternalId));
        },
        SnakDataType::CommonsMedia => {
            assert(dt_tok_of(dt) == "commons-media"@);
            assert(("commons-media"@)[0] == 'c' && ("wikibase-item"@)[0] == 'w');
            assert(sp_dt("commons-media"@) == Some(SnakDataType::CommonsMedia));
        },
        SnakDataType::Time => {
            assert(dt_tok_of(dt) == "time"@);
            assert(sp_dt("time"@) == Some(SnakDataType::Time));
        },
        SnakDataType::Quantity => {
            assert(dt_tok_of(dt) == "quantity"@);
            assert(sp_dt("quantity"@) == Some(SnakDataType::Quantity));
        },
        SnakDataType::GlobeCoordinate => {
            assert(dt_tok_of(dt) == "globe-coordinate"@);
            assert(sp_dt("globe-coordinate"@) == Some(SnakDataType::GlobeCoordinate));
        },
        SnakDataType::MonolingualText => {
            assert(dt_tok_of(dt) == "monolingualtext"@);
            assert(sp_dt("monolingualtext"@) == Some(SnakDataType::MonolingualText));
        },
        SnakDataType::Url => {
            assert(dt_tok_of(dt) == "url"@);
            assert(sp_dt("url"@) == Some(SnakDataType::Url));
        },
        SnakDataType::Other => {
            assert(dt_tok_of(dt) == "other"@);
            assert(sp_dt("other"@) == Some(SnakDataType::Other));
        },
    }
}

proof fn lemma_rank_tok_sound(rank: StatementRank)
    ensures
        sp_rank(rank_tok_of(rank)) == Some(rank),
{
    reveal_strlit("preferred");
    reveal_strlit("normal");
    reveal_strlit("deprecated");
    match rank {
        StatementRank::Preferred => {
            assert(rank_tok_of(rank) == "preferred"@);
            assert(sp_rank("preferred"@) == Some(StatementRank::Preferred));
        },
        StatementRank::Normal => {
            assert(rank_tok_of(rank) == "normal"@);
            assert(sp_rank("normal"@) == Some(StatementRank::Normal));
        },
        StatementRank::Deprecated => {
            assert(rank_tok_of(rank) == "deprecated"@);
            assert(sp_rank("deprecated"@) == Some(StatementRank::Deprecated));
        },
    }
}

proof fn lemma_kind_tok_sound(kind: EntityKind)
    ensures
        sp_kind(kind_tok_of(kind)) == Some(kind),
{
    reveal_strlit("item");
    reveal_strlit("property");
    match kind {
        EntityKind::Item => {
            assert(kind_tok_of(kind) == "item"@);
            assert(sp_kind("item"@) == Some(EntityKind::Item));
        },
        EntityKind::Property => {
            assert(kind_tok_of(kind) == "property"@);
            assert(sp_kind("property"@) == Some(EntityKind::Property));
        },
    }
}

proof fn lemma_opt_dt_tok_sound(dt: Option<SnakDataType>)
    ensures
        sp_opt_dt(opt_dt_tok_of(dt)) == Some(dt),
{
    reveal_strlit("none");
    reveal_strlit("wikibase-item");
    reveal_strlit("string");
    reveal_strlit("external-id");
    reveal_strlit("commons-media");
    reveal_strlit("time");
    reveal_strlit("quantity");
    reveal_strlit("globe-coordinate");
    reveal_strlit("monolingualtext");
    reveal_strlit("url");
    reveal_strlit("other");
    match dt {
        None => {
            assert(sp_opt_dt(opt_dt_tok_of(dt)) == Some(dt));
        },
        Some(d) => {
            lemma_dt_tok_sound(d);
            assert(dt_tok_of(d) != "none"@) by {
                let nl = ("none"@).len();
                assert(nl == 4);
                match d {
                    SnakDataType::WikibaseItem => {
                        assert(("wikibase-item"@).len() == 13);
                    },
                    SnakDataType::StringType => {
                        assert(("string"@).len() == 6);
                    },
                    SnakDataType::ExternalId => {
                        assert(("external-id"@).len() == 11);
                    },
                    SnakDataType::CommonsMedia => {
                        assert(("commons-media"@).len() == 13);
                    },
                    SnakDataType::Time => {
                        assert(("time"@)[0] == 't' && ("none"@)[0] == 'n');
                    },
                    SnakDataType::Quantity => {
                        assert(("quantity"@).len() == 8);
                    },
                    SnakDataType::GlobeCoordinate => {
                        assert(("globe-coordinate"@).len() == 16);
                    },
                    SnakDataType::MonolingualText => {
                        assert(("monolingualtext"@).len() == 15);
                    },
                    SnakDataType::Url => {
                        assert(("url"@).len() == 3);
                    },
                    SnakDataType::Other => {
                        assert(("other"@).len() == 5);
                    },
                }
            }
            assert(sp_opt_dt(opt_dt_tok_of(dt)) == Some(dt));
        },
    }
}

/// Parsing at a position where a value's token list lies yields the value.
proof fn lemma_value_layout(t: Toks, pos: int, v: SnakValueView)
    requires
        0 <= pos,
        pos + toks_of_value(v).len() <= t.len(),
        t.subrange(pos, pos + toks_of_value(v).len()) == toks_of_value(v),
    ensures
        sp_value(t, pos) == Some((v, pos + toks_of_value(v).len())),
{
    reveal_strlit("novalue");
    reveal_strlit("ent");
    reveal_strlit("str");
    reveal_strlit("time");
    reveal_strlit("qty");
    reveal_strlit("coord");
    reveal_strlit("mono");
    let w = toks_of_value(v);
    assert forall|k: int| 0 <= k < w.len() implies t[pos + k] == w[k] by {
        assert(t.subrange(pos, pos + w.len())[k] == t[pos + k]);
    }
    let sub = t.subrange(pos, pos + w.len());
    match v {
        SnakValueView::NoValue => {
            assert(sub[0] == t[pos]);
            assert(t[pos] == "novalue"@);
            assert(("novalue"@).len() == 7);
            assert(sp_value(t, pos) == Some((v, pos + w.len())));
        },
        SnakValueView::Entity(x) => {
            assert(sub[0] == t[pos] && sub[1] == t[pos + 1]);
            assert(t[pos] == "ent"@ && t[pos + 1] == x);
            assert(("ent"@).len() == 3 && ("novalue"@).len() == 7);
            assert(sp_value(t, pos) == Some((v, pos + w.len())));
        },
        SnakValueView::StringValue(x) => {
            assert(sub[0] == t[pos] && sub[1] == t[pos + 1]);
            assert(t[pos] == "str"@ && t[pos + 1] == x);
            assert(("str"@)[0] == 's' && ("ent"@)[0] == 'e');
            assert(("str"@).len() == 3 && ("novalue"@).len() == 7);
            assert(sp_value(t, pos) == Some((v, pos + w.len())));
        },
        SnakValueView::Time(x) => {
            assert(sub[0] == t[pos] && sub[1] == t[pos + 1]);
            assert(t[pos] == "time"@ && t[pos + 1] == x);
            assert(("time"@).len() == 4 && ("novalue"@).len() == 7 && ("ent"@).len() == 3
                && ("str"@).len() == 3);
            assert(sp_value(t, pos) == Some((v, pos + w.len())));
        },
        SnakValueView::Quantity(x) => {
            assert(sub[0] == t[pos] && sub[1] == t[pos + 1]);
            assert(t[pos] == "qty"@ && t[pos + 1] == x);
            assert(("qty"@)[0] == 'q' && ("ent"@)[0] == 'e' && ("str"@)[0] == 's');
            assert(("qty"@).len() == 3 && ("novalue"@).len() == 7 && ("time"@).len() == 4);
            assert(sp_value(t, pos) == Some((v, pos + w.len())));
        },
        SnakValueView::Coordinate(a, b) => {
            assert(sub[0] == t[pos] && sub[1] == t[pos + 1] && sub[2] == t[pos + 2]);
            assert(t[pos] == "coord"@ && t[pos + 1] == a && t[pos + 2] == b);
            assert(("coord"@).len() == 5 && ("novalue"@).len() == 7 && ("ent"@).len() == 3
                && ("str"@).len() == 3 && ("time"@).len() == 4 && ("qty"@).len() == 3);
            assert(sp_value(t, pos) == Some((v, pos + w.len())));
        },
        SnakValueView::MonolingualText(a, b) => {
            assert(sub[0] == t[pos] && sub[1] == t[pos + 1] && sub[2] == t[pos + 2]);
            assert(t[pos] == "mono"@ && t[pos + 1] == a && t[pos + 2] == b);
            assert(("mono"@)[0] == 'm' && ("time"@)[0] == 't');
            assert(("mono"@).len() == 4 && ("novalue"@).len() == 7 && ("ent"@).len() == 3
                && ("str"@).len() == 3 && ("qty"@).len() == 3 && ("coord"@).len() == 5);
            assert(sp_value(t, pos) == Some((v, pos + w.len())));
        },
    }
}

/// Parsing at a position where a pair list lies yields the pairs.
proof fn lemma_pairs_layout(t: Toks, pos: int, ps: Seq<(Seq<char>, Seq<char>)>)
    requires
        0 <= pos,
        pos + toks_of_pairs(ps).len() <= t.len(),
        t.subrange(pos, pos + toks_of_pairs(ps).len()) == toks_of_pairs(ps),
    ensures
        sp_pairs(t, pos, ps.len() as int) == Some((ps, pos + toks_of_pairs(ps).len())),
        toks_of_pairs(ps).len() == 2 * ps.len(),
    decreases ps.len(),
{
    lemma_toks_of_pairs_len(ps);
    if ps.len() > 0 {
        let w = toks_of_pairs(ps);
        let rest = toks_of_pairs(ps.skip(1));
        assert forall|k: int| 0 <= k < w.len() implies t[pos + k] == w[k] by {
            assert(t.subrange(pos, pos + w.len())[k] == t[pos + k]);
        }
        assert(w[0] == ps[0].0 && w[1] == ps[0].1);
        assert(t.subrange(pos + 2, pos + 2 + rest.len()) =~= rest) by {
            assert forall|k: int| 0 <= k < rest.len() implies t.subrange(
                pos + 2,
                pos + 2 + rest.len(),
            )[k] == rest[k] by {
                assert(t[pos + 2 + k] == w[2 + k]);
                assert(w[2 + k] == rest[k]);
            }
        }
        lemma_pairs_layout(t, pos + 2, ps.skip(1));
        assert(seq![(t[pos], t[pos + 1])] + ps.skip(1) =~= ps);
    }
}

proof fn lemma_toks_of_pairs_len(ps: Seq<(Seq<char>, Seq<char>)>)
    ensures
        toks_of_pairs(ps).len() == 2 * ps.len(),
    decreases ps.len(),
{
    if ps.len() > 0 {
        lemma_toks_of_pairs_len(ps.skip(1));
    }
}

/// Parsing at a position where a qualifier list lies yields the
/// qualifiers.
proof fn lemma_quals_layout(t: Toks, pos: int, qs: Seq<QualifierView>)
    requires
        0 <= pos,
        pos + toks_of_quals(qs).len() <= t.len(),
        t.subrange(pos, pos + toks_of_quals(qs).len()) == toks_of_quals(qs),
    ensures
        sp_quals(t, pos, qs.len() as int) == Some((qs, pos + toks_of_quals(qs).len())),
    decreases qs.len(),
{
    reveal_strlit("novalue");
    reveal_strlit("ent");
    reveal_strlit("str");
    reveal_strlit("time");
    reveal_strlit("qty");
    reveal_strlit("coord");
    reveal_strlit("mono");
    reveal_strlit("wikibase-item");
    reveal_strlit("string");
    reveal_strlit("external-id");
    reveal_strlit("commons-media");
    reveal_strlit("time");
    reveal_strlit("quantity");
    reveal_strlit("globe-coordinate");
    reveal_strlit("monolingualtext");
    reveal_strlit("url");
    reveal_strlit("other");
    if qs.len() > 0 {
        let w = toks_of_quals(qs);
        let q = qs[0];
        let head = toks_of_qual(q);
        let vtoks = toks_of_value(q.value);
        let rest = toks_of_quals(qs.skip(1));
        assert(w == head + rest);
        assert forall|k: int| 0 <= k < w.len() implies t[pos + k] == w[k] by {
            assert(t.subrange(pos, pos + w.len())[k] == t[pos + k]);
        }
        assert(t[pos] == q.property && t[pos + 1] == dt_tok_of(q.datatype)) by {
            assert(w[0] == head[0] && w[1] == head[1]);
        }
        lemma_dt_tok_sound(q.datatype);
        assert(t.subrange(pos + 2, pos + 2 + vtoks.len()) =~= vtoks) by {
            assert forall|k: int| 0 <= k < vtoks.len() implies t.subrange(
                pos + 2,
                pos + 2 + vtoks.len(),
            )[k] == vtoks[k] by {
                assert(t[pos + 2 + k] == w[2 + k]);
                assert(w[2 + k] == head[2 + k]);
                assert(head[2 + k] == vtoks[k]);
            }
        }
        lemma_value_layout(t, pos + 2, q.value);
        let p = pos + 2 + vtoks.len();
        assert(t.subrange(p, p + rest.len()) =~= rest) by {
            assert forall|k: int| 0 <= k < rest.len() implies t.subrange(p, p + rest.len())[k]
                == rest[k] by {
                assert(t[p + k] == w[head.len() + k]);
                assert(w[head.len() + k] == rest[k]);
            }
        }
        lemma_quals_layout(t, p, qs.skip(1));
        assert(seq![QualifierView { property: q.property, datatype: q.datatype, value: q.value }]
            + qs.skip(1) =~= qs);
    }
}

/// Parsing at a position where a statement list lies yields the
/// statements.
proof fn lemma_stmts_layout(t: Toks, pos: int, sts: Seq<StatementView>)
    requires
        0 <= pos,
        pos + toks_of_stmts(sts).len() <= t.len(),
        t.subrange(pos, pos + toks_of_stmts(sts).len()) == toks_of_stmts(sts),
        forall|k: int| 0 <= k < sts.len() ==> #[trigger] sts[k].qualifiers.len() <= u64::MAX,
    ensures
        sp_stmts(t, pos, sts.len() as int) == Some((sts, pos + toks_of_stmts(sts).len())),
    decreases sts.len(),
{
    reveal_strlit("novalue");
    reveal_strlit("ent");
    reveal_strlit("str");
    reveal_strlit("time");
    reveal_strlit("qty");
    reveal_strlit("coord");
    reveal_strlit("mono");
    reveal_strlit("wikibase-item");
    reveal_strlit("string");
    reveal_strlit("external-id");
    reveal_strlit("commons-media");
    reveal_strlit("quantity");
    reveal_strlit("globe-coordinate");
    reveal_strlit("monolingualtext");
    reveal_strlit("url");
    reveal_strlit("other");
    reveal_strlit("preferred");
    reveal_strlit("normal");
    reveal_strlit("deprecated");
    reveal_strlit("item");
    reveal_strlit("property");
    reveal_strlit("none");
    if sts.len() > 0 {
        let w = toks_of_stmts(sts);
        let st = sts[0];
        let head = toks_of_stmt(st);
        let vtoks = toks_of_value(st.value);
        let qtoks = toks_of_quals(st.qualifiers);
        let rest = toks_of_stmts(sts.skip(1));
        assert(w == head + rest);
        assert forall|k: int| 0 <= k < w.len() implies t[pos + k] == w[k] by {
            assert(t.subrange(pos, pos + w.len())[k] == t[pos + k]);
        }
        assert(head == seq![st.property, rank_tok_of(st.rank), dt_tok_of(st.datatype)] + vtoks
            + seq![spec_dec_digits(st.qualifiers.len() as int)] + qtoks);
        assert(t[pos] == st.property && t[pos + 1] == rank_tok_of(st.rank) && t[pos + 2]
            == dt_tok_of(st.datatype)) by {
            assert(w[0] == head[0] && w[1] == head[1] && w[2] == head[2]);
        }
        lemma_rank_tok_sound(st.rank);
        lemma_dt_tok_sound(st.datatype);
        assert(t.subrange(pos + 3, pos + 3 + vtoks.len()) =~= vtoks) by {
            assert forall|k: int| 0 <= k < vtoks.len() implies t.subrange(
                pos + 3,
                pos + 3 + vtoks.len(),
            )[k] == vtoks[k] by {
                assert(t[pos + 3 + k] == w[3 + k]);
                assert(w[3 + k] == head[3 + k]);
                assert(head[3 + k] == vtoks[k]);
            }
        }
        lemma_value_layout(t, pos + 3, st.value);
        let p = pos + 3 + vtoks.len();
        assert(t[p] == spec_dec_digits(st.qualifiers.len() as int)) by {
            assert(w[p - pos] == head[p - pos]);
        }
        lemma_dec_digits(st.qualifiers.len() as int);
        assert(sp_count(t, p) == Some((st.qualifiers.len() as int, p + 1)));
        let p2 = p + 1;
        assert(t.subrange(p2, p2 + qtoks.len()) =~= qtoks) by {
            assert forall|k: int| 0 <= k < qtoks.len() implies t.subrange(p2, p2 + qtoks.len())[k]
                == qtoks[k] by {
                assert(t[p2 + k] == w[p2 - pos + k]);
                assert(w[p2 - pos + k] == head[p2 - pos + k]);
                assert(head[p2 - pos + k] == qtoks[k]);
            }
        }
        lemma_quals_layout(t, p2, st.qualifiers);
        let p3 = p2 + qtoks.len();
        assert(t.subrange(p3, p3 + rest.len()) =~= rest) by {
            assert forall|k: int| 0 <= k < rest.len() implies t.subrange(p3, p3 + rest.len())[k]
                == rest[k] by {
                assert(t[p3 + k] == w[head.len() + k]);
                assert(w[head.len() + k] == rest[k]);
            }
        }
        lemma_stmts_layout(t, p3, sts.skip(1));
        assert(seq![
            StatementView {
                property: st.property,
                rank: st.rank,
                datatype: st.datatype,
                value: st.value,
                qualifiers: st.qualifiers,
            },
        ] + sts.skip(1) =~= sts);
    }
}


/// Push one token, extending the view by one.
fn push_tok(out: &mut Vec<String>, s: String)
    ensures
        final(out).deep_view() =~= old(out).deep_view().push(s@),
{
    let ghost sv = s@;
    let ghost before = out.deep_view();
    out.push(s);
    proof {
        assert forall|k: int| 0 <= k < out@.len() implies out.deep_view()[k] == before.push(
            sv,
        )[k] by {
            assert(out.deep_view()[k] == out@[k]@);
            if k < before.len() {
                assert(before[k] == out@[k]@);
            }
        }
        assert(out.deep_view() =~= before.push(sv));
    }
}

fn dt_token(dt: &SnakDataType) -> (r: String)
    ensures
        r@ == dt_tok_of(*dt),
{
    match dt {
        SnakDataType::WikibaseItem => String::from_str("wikibase-item"),
        SnakDataType::StringType => String::from_str("string"),
        SnakDataType::ExternalId => String::from_str("external-id"),
        SnakDataType::CommonsMedia => String::from_str("commons-media"),
        SnakDataType::Time => String::from_str("time"),
        SnakDataType::Quantity => String::from_str("quantity"),
        SnakDataType::GlobeCoordinate => String::from_str("globe-coordinate"),
        SnakDataType::MonolingualText => String::from_str("monolingualtext"),
        SnakDataType::Url => String::from_str("url"),
        SnakDataType::Other => String::from_str("other"),
    }
}

/// Append a value's tokens.
fn value_tokens(out: &mut Vec<String>, v: &SnakValue)
    ensures
        final(out).deep_view() =~= old(out).deep_view() + toks_of_value(v.deep_view()),
{
    let ghost before = out.deep_view();
    match v {
        SnakValue::NoValue => {
            push_tok(out, String::from_str("novalue"));
            proof {
                assert(out.deep_view() =~= before + toks_of_value(v.deep_view()));
            }
        },
        SnakValue::Entity(x) => {
            push_tok(out, String::from_str("ent"));
            push_tok(out, x.clone());
            proof {
                assert(out.deep_view() =~= before + toks_of_value(v.deep_view()));
            }
        },
        SnakValue::StringValue(x) => {
            push_tok(out, String::from_str("str"));
            push_tok(out, x.clone());
            proof {
                assert(out.deep_view() =~= before + toks_of_value(v.deep_view()));
            }
        },
        SnakValue::Time(x) => {
            push_tok(out, String::from_str("time"));
            push_tok(out, x.clone());
            proof {
                assert(out.deep_view() =~= before + toks_of_value(v.deep_view()));
            }
        },
        SnakValue::Quantity(x) => {
            push_tok(out, String::from_str("qty"));
            push_tok(out, x.clone());
            proof {
                assert(out.deep_view() =~= before + toks_of_value(v.deep_view()));
            }
        },
        SnakValue::Coordinate(a, b) => {
            push_tok(out, String::from_str("coord"));
            push_tok(out, a.clone());
            push_tok(out, b.clone());
            proof {
                assert(out.deep_view() =~= before + toks_of_value(v.deep_view()));
            }
        },
        SnakValue::MonolingualText(a, b) => {
            push_tok(out, String::from_str("mono"));
            push_tok(out, a.clone());
            push_tok(out, b.clone());
            proof {
                assert(out.deep_view() =~= before + toks_of_value(v.deep_view()));
            }
        },
    }
}

proof fn lemma_toks_of_pairs_snoc(s: Seq<(Seq<char>, Seq<char>)>, x: (Seq<char>, Seq<char>))
    ensures
        toks_of_pairs(s.push(x)) =~= toks_of_pairs(s) + seq![x.0, x.1],
    decreases s.len(),
{
    if s.len() == 0 {
        assert(s.push(x)[0] == x);
        assert(s.push(x).skip(1) =~= Seq::<(Seq<char>, Seq<char>)>::empty());
        assert(toks_of_pairs(Seq::<(Seq<char>, Seq<char>)>::empty())
            =~= Seq::<Seq<char>>::empty());
        assert(toks_of_pairs(s.push(x)) =~= seq![x.0, x.1]);
        assert(toks_of_pairs(s) =~= Seq::<Seq<char>>::empty());
    } else {
        assert(s.push(x)[0] == s[0]);
        assert(s.push(x).skip(1) =~= s.skip(1).push(x));
        lemma_toks_of_pairs_snoc(s.skip(1), x);
        assert(toks_of_pairs(s.push(x)) =~= seq![s[0].0, s[0].1] + toks_of_pairs(
            s.skip(1).push(x),
        ));
        assert(toks_of_pairs(s) =~= seq![s[0].0, s[0].1] + toks_of_pairs(s.skip(1)));
        assert(toks_of_pairs(s.push(x)) =~= toks_of_pairs(s) + seq![x.0, x.1]);
    }
}

proof fn lemma_toks_of_quals_snoc(s: Seq<QualifierView>, x: QualifierView)
    ensures
        toks_of_quals(s.push(x)) =~= toks_of_quals(s) + toks_of_qual(x),
    decreases s.len(),
{
    if s.len() == 0 {
        assert(s.push(x)[0] == x);
        assert(s.push(x).skip(1) =~= Seq::<QualifierView>::empty());
        assert(toks_of_quals(Seq::<QualifierView>::empty()) =~= Seq::<Seq<char>>::empty());
        assert(toks_of_quals(s.push(x)) =~= toks_of_qual(x));
        assert(toks_of_quals(s) =~= Seq::<Seq<char>>::empty());
    } else {
        assert(s.push(x)[0] == s[0]);
        assert(s.push(x).skip(1) =~= s.skip(1).push(x));
        lemma_toks_of_quals_snoc(s.skip(1), x);
        assert(toks_of_quals(s.push(x)) =~= toks_of_qual(s[0]) + toks_of_quals(
            s.skip(1).push(x),
        ));
        assert(toks_of_quals(s) =~= toks_of_qual(s[0]) + toks_of_quals(s.skip(1)));
        assert(toks_of_quals(s.push(x)) =~= toks_of_quals(s) + toks_of_qual(x));
    }
}

proof fn lemma_toks_of_stmts_snoc(s: Seq<StatementView>, x: StatementView)
    ensures
        toks_of_stmts(s.push(x)) =~= toks_of_stmts(s) + toks_of_stmt(x),
    decreases s.len(),
{
    if s.len() == 0 {
        assert(s.push(x)[0] == x);
        assert(s.push(x).skip(1) =~= Seq::<StatementView>::empty());
        assert(toks_of_stmts(Seq::<StatementView>::empty()) =~= Seq::<Seq<char>>::empty());
        assert(toks_of_stmts(s.push(x)) =~= toks_of_stmt(x));
        assert(toks_of_stmts(s) =~= Seq::<Seq<char>>::empty());
    } else {
        assert(s.push(x)[0] == s[0]);
        assert(s.push(x).skip(1) =~= s.skip(1).push(x));
        lemma_toks_of_stmts_snoc(s.skip(1), x);
        assert(toks_of_stmts(s.push(x)) =~= toks_of_stmt(s[0]) + toks_of_stmts(
            s.skip(1).push(x),
        ));
        assert(toks_of_stmts(s) =~= toks_of_stmt(s[0]) + toks_of_stmts(s.skip(1)));
        assert(toks_of_stmts(s.push(x)) =~= toks_of_stmts(s) + toks_of_stmt(x));
    }
}

/// Append a pair list's tokens.
fn pairs_tokens(out: &mut Vec<String>, pairs: &Vec<(String, String)>)
    ensures
        final(out).deep_view() =~= old(out).deep_view() + toks_of_pairs(
            spec_pairs_view(pairs@),
        ),
{
    let ghost before = out.deep_view();
    let ghost pv = spec_pairs_view(pairs@);
    let n = pairs.len();
    let mut i: usize = 0;
    proof {
        assert(pv.take(0) =~= Seq::<(Seq<char>, Seq<char>)>::empty());
        assert(out.deep_view() =~= before + toks_of_pairs(pv.take(0)));
    }
    while i < n
        invariant
            n == pairs@.len(),
            0 <= i <= n,
            pv == spec_pairs_view(pairs@),
            out.deep_view() =~= before + toks_of_pairs(pv.take(i as int)),
        decreases n - i,
    {
        let pair = &pairs[i];
        push_tok(out, pair.0.clone());
        push_tok(out, pair.1.clone());
        proof {
            assert(pv.take(i as int).push(pv[i as int]) =~= pv.take(i as int + 1));
            lemma_toks_of_pairs_snoc(pv.take(i as int), pv[i as int]);
            assert(pv[i as int] == (pairs@[i as int].0@, pairs@[i as int].1@));
            assert(out.deep_view() =~= before + toks_of_pairs(pv.take(i as int + 1)));
        }
        i += 1;
    }
    proof {
        assert(pv.take(n as int) =~= pv);
    }
}

/// Append a qualifier's tokens.
fn qual_tokens(out: &mut Vec<String>, q: &Qualifier)
    ensures
        final(out).deep_view() =~= old(out).deep_view() + toks_of_qual(q.deep_view()),
{
    let ghost before = out.deep_view();
    push_tok(out, q.property.clone());
    push_tok(out, dt_token(&q.datatype));
    value_tokens(out, &q.value);
    proof {
        assert(out.deep_view() =~= before + toks_of_qual(q.deep_view()));
    }
}

/// Append a statement's tokens.
fn stmt_tokens(out: &mut Vec<String>, st: &Statement)
    ensures
        final(out).deep_view() =~= old(out).deep_view() + toks_of_stmt(st.deep_view()),
        st.deep_view().qualifiers.len() <= u64::MAX,
{
    let ghost before = out.deep_view();
    push_tok(out, st.property.clone());
    let rank = match st.rank {
        StatementRank::Preferred => String::from_str("preferred"),
        StatementRank::Normal => String::from_str("normal"),
        StatementRank::Deprecated => String::from_str("deprecated"),
    };
    push_tok(out, rank);
    push_tok(out, dt_token(&st.datatype));
    value_tokens(out, &st.value);
    let qn = st.qualifiers.len();
    push_tok(out, u64_string(qn as u64));
    let ghost mid = out.deep_view();
    let m = st.qualifiers.len();
    let mut j: usize = 0;
    proof {
        assert(st.deep_view().qualifiers.take(0) =~= Seq::<QualifierView>::empty());
        assert(out.deep_view() =~= mid + toks_of_quals(st.deep_view().qualifiers.take(0)));
    }
    while j < m
        invariant
            m == st.qualifiers@.len(),
            0 <= j <= m,
            mid == mid,
            st.deep_view().qualifiers.len() == m,
            out.deep_view() =~= mid + toks_of_quals(st.deep_view().qualifiers.take(j as int)),
        decreases m - j,
    {
        qual_tokens(out, &st.qualifiers[j]);
        proof {
            let qs = st.deep_view().qualifiers;
            assert(qs[j as int] == st.qualifiers@[j as int].deep_view());
            assert(qs.take(j as int).push(qs[j as int]) =~= qs.take(j as int + 1));
            lemma_toks_of_quals_snoc(qs.take(j as int), qs[j as int]);
            assert(out.deep_view() =~= mid + toks_of_quals(qs.take(j as int + 1)));
        }
        j += 1;
    }
    proof {
        let qs = st.deep_view().qualifiers;
        assert(qs.take(m as int) =~= qs);
        assert(out.deep_view() =~= before + toks_of_stmt(st.deep_view()));
    }
}

/// Encode an entity as its token list: the parser maps the result back to
/// the entity's view.
pub fn entity_to_tokens(e: &Entity) -> (toks: Vec<String>)
    ensures
        toks.deep_view() == toks_of_entity(e.deep_view()),
        sp_entity(toks.deep_view()) == Some(e.deep_view()),
{
    let ghost ev = e.deep_view();
    let mut out: Vec<String> = Vec::new();
    push_tok(&mut out, e.id.clone());
    let kind = match e.kind {
        EntityKind::Item => String::from_str("item"),
        EntityKind::Property => String::from_str("property"),
    };
    push_tok(&mut out, kind);
    let dts = match &e.datatype {
        None => String::from_str("none"),
        Some(d) => dt_token(d),
    };
    push_tok(&mut out, dts);
    push_tok(&mut out, u64_string(e.labels.len() as u64));
    pairs_tokens(&mut out, &e.labels);
    push_tok(&mut out, u64_string(e.sitelinks.len() as u64));
    pairs_tokens(&mut out, &e.sitelinks);
    push_tok(&mut out, u64_string(e.statements.len() as u64));
    let ghost mid = out.deep_view();
    let m = e.statements.len();
    let mut j: usize = 0;
    proof {
        assert(ev.statements.take(0) =~= Seq::<StatementView>::empty());
        assert(out.deep_view() =~= mid + toks_of_stmts(ev.statements.take(0)));
    }
    while j < m
        invariant
            m == e.statements@.len(),
            0 <= j <= m,
            ev == e.deep_view(),
            ev.statements.len() == m,
            out.deep_view() =~= mid + toks_of_stmts(ev.statements.take(j as int)),
            forall|k: int| 0 <= k < j ==> #[trigger] ev.statements[k].qualifiers.len()
                <= u64::MAX,
        decreases m - j,
    {
        stmt_tokens(&mut out, &e.statements[j]);
        proof {
            let sts = ev.statements;
            assert(sts[j as int] == e.statements@[j as int].deep_view());
            assert(sts.take(j as int).push(sts[j as int]) =~= sts.take(j as int + 1));
            lemma_toks_of_stmts_snoc(sts.take(j as int), sts[j as int]);
            assert(out.deep_view() =~= mid + toks_of_stmts(sts.take(j as int + 1)));
        }
        j += 1;
    }
    proof {
        assert(ev.statements.take(m as int) =~= ev.statements);
        assert(out.deep_view() =~= toks_of_entity(ev));
        lemma_entity_layout(out.deep_view(), ev);
    }
    out
}

/// The entity token layout parses back to the entity.
proof fn lemma_entity_layout(t: Toks, ev: EntityView)
    requires
        t == toks_of_entity(ev),
        ev.labels.len() <= u64::MAX,
        ev.sitelinks.len() <= u64::MAX,
        ev.statements.len() <= u64::MAX,
        forall|k: int| 0 <= k < ev.statements.len() ==> #[trigger] ev.statements[k].qualifiers.len()
            <= u64::MAX,
    ensures
        sp_entity(t) == Some(ev),
{
    let lab = toks_of_pairs(ev.labels);
    let sit = toks_of_pairs(ev.sitelinks);
    let stm = toks_of_stmts(ev.statements);
    lemma_toks_of_pairs_len(ev.labels);
    lemma_toks_of_pairs_len(ev.sitelinks);
    assert(t[0] == ev.id && t[1] == kind_tok_of(ev.kind) && t[2] == opt_dt_tok_of(ev.datatype));
    lemma_kind_tok_sound(ev.kind);
    lemma_opt_dt_tok_sound(ev.datatype);
    assert(t[3] == spec_dec_digits(ev.labels.len() as int));
    lemma_dec_digits(ev.labels.len() as int);
    assert(sp_count(t, 3) == Some((ev.labels.len() as int, 4int)));
    let p = 4;
    assert(t.subrange(p, p + lab.len()) =~= lab) by {
        assert forall|k: int| 0 <= k < lab.len() implies t.subrange(p, p + lab.len())[k]
            == lab[k] by {
            assert(t[p + k] == lab[k]);
        }
    }
    lemma_pairs_layout(t, p, ev.labels);
    let p2 = p + lab.len();
    assert(t[p2] == spec_dec_digits(ev.sitelinks.len() as int));
    lemma_dec_digits(ev.sitelinks.len() as int);
    assert(sp_count(t, p2) == Some((ev.sitelinks.len() as int, p2 + 1)));
    let p3 = p2 + 1;
    assert(t.subrange(p3, p3 + sit.len()) =~= sit) by {
        assert forall|k: int| 0 <= k < sit.len() implies t.subrange(p3, p3 + sit.len())[k]
            == sit[k] by {
            assert(t[p3 + k] == sit[k]);
        }
    }
    lemma_pairs_layout(t, p3, ev.sitelinks);
    let p4 = p3 + sit.len();
    assert(t[p4] == spec_dec_digits(ev.statements.len() as int));
    lemma_dec_digits(ev.statements.len() as int);
    assert(sp_count(t, p4) == Some((ev.statements.len() as int, p4 + 1)));
    let p5 = p4 + 1;
    assert(t.subrange(p5, p5 + stm.len()) =~= stm) by {
        assert forall|k: int| 0 <= k < stm.len() implies t.subrange(p5, p5 + stm.len())[k]
            == stm[k] by {
            assert(t[p5 + k] == stm[k]);
        }
    }
    lemma_stmts_layout(t, p5, ev.statements);
}

} // verus!
