//! Columns of the rendered table. Each comma-separated token of the
//! template's `columns` parameter maps to one `ColumnType`: the fixed names
//! `item`, `number` and `label`, a property id `P..`, a `property/qualifier`
//! pair, a `property/qualifier/property` triple, or a free field name bound
//! to a query variable.

use crate::text::{
    eq_ignore_ascii_case, find_from, spec_eq_ignore_ascii_case, spec_find_from, spec_is_digit,
    spec_trim, trim_str,
};
use vstd::prelude::*;

verus! {

#[derive(Debug, Clone)]
pub enum ColumnType {
    /// The subject entity itself.
    Item,
    /// The running row number.
    Number,
    /// The subject's display label.
    Label,
    /// A query variable, by name.
    Field(String),
    /// Values of one property of the subject.
    Property(String),
    /// Values of one qualifier of one property's statements.
    PropertyQualifier(String, String),
    /// Values of a second property read through a qualifier chain.
    PropertyQualifierValue(String, String, String),
}

/// A property id: `P` or `p` followed by one or more digits.
pub open spec fn spec_is_pid(s: Seq<char>) -> bool {
    s.len() >= 2 && (s[0] == 'P' || s[0] == 'p') && (forall|i: int|
        1 <= i < s.len() ==> spec_is_digit(#[trigger] s[i]))
}

/// The canonical form of a property id: upper-case `P` plus the digits.
pub open spec fn spec_canon_pid(s: Seq<char>) -> Seq<char> {
    seq!['P'] + s.skip(1)
}

fn is_pid(s: &str) -> (r: bool)
    ensures
        r == spec_is_pid(s@),
{
    let len = s.unicode_len();
    if len < 2 {
        return false;
    }
    let c0 = s.get_char(0);
    if c0 != 'P' && c0 != 'p' {
        return false;
    }
    let mut i: usize = 1;
    while i < len
        invariant
            len == s@.len(),
            1 <= i <= len,
            forall|j: int| 1 <= j < i ==> spec_is_digit(#[trigger] s@[j]),
        decreases len - i,
    {
        let c = s.get_char(i);
        if c < '0' || c > '9' {
            return false;
        }
        i += 1;
    }
    true
}

fn canon_pid(s: &str) -> (r: String)
    requires
        s@.len() >= 1,
    ensures
        r@ == spec_canon_pid(s@),
{
    let rest = s.substring_char(1, s.unicode_len());
    let mut r = String::from_str("P");
    proof {
        reveal_strlit("P");
        assert(r@ =~= seq!['P']);
    }
    r.append(rest);
    proof {
        assert(r@ =~= spec_canon_pid(s@));
    }
    r
}

/// The kind of column one trimmed template token stands for.
pub open spec fn spec_column_type(raw: Seq<char>) -> ColumnTypeView {
    let s = spec_trim(raw);
    if spec_eq_ignore_ascii_case(s, "item"@) {
        ColumnTypeView::Item
    } else if spec_eq_ignore_ascii_case(s, "number"@) {
        ColumnTypeView::Number
    } else if spec_eq_ignore_ascii_case(s, "label"@) {
        ColumnTypeView::Label
    } else if spec_is_pid(s) {
        ColumnTypeView::Property(spec_canon_pid(s))
    } else {
        match spec_find_from(s, 0, '/') {
            None => ColumnTypeView::Field(s),
            Some(i) => spec_column_type_slashed(s, i),
        }
    }
}

/// The slashed forms, given the position of the first `/`.
pub open spec fn spec_column_type_slashed(s: Seq<char>, i: int) -> ColumnTypeView {
    let p1 = s.subrange(0, i);
    let rest = s.skip(i + 1);
    match spec_find_from(rest, 0, '/') {
        None => {
            if spec_is_pid(p1) && spec_is_pid(rest) {
                ColumnTypeView::PropertyQualifier(spec_canon_pid(p1), spec_canon_pid(rest))
            } else {
                ColumnTypeView::Field(s)
            }
        },
        Some(j) => {
            let p2 = rest.subrange(0, j);
            let p3 = rest.skip(j + 1);
            if spec_is_pid(p1) && spec_is_pid(p2) && spec_is_pid(p3) && spec_find_from(p3, 0, '/')
                is None {
                ColumnTypeView::PropertyQualifierValue(
                    spec_canon_pid(p1),
                    spec_canon_pid(p2),
                    spec_canon_pid(p3),
                )
            } else {
                ColumnTypeView::Field(s)
            }
        },
    }
}

pub fn parse_column_type(raw: &str) -> (r: ColumnType)
    ensures
        r.deep_view() == spec_column_type(raw@),
{
    let t = trim_str(raw);
    let s = t.as_str();
    if eq_ignore_ascii_case(s, "item") {
        return ColumnType::Item;
    }
    if eq_ignore_ascii_case(s, "number") {
        return ColumnType::Number;
    }
    if eq_ignore_ascii_case(s, "label") {
        return ColumnType::Label;
    }
    if is_pid(s) {
        return ColumnType::Property(canon_pid(s));
    }
    let len = s.unicode_len();
    match find_from(s, 0, '/') {
        None => ColumnType::Field(t.clone()),
        Some(i) => {
            proof {
                crate::text::lemma_find_from_bounds(s@, 0, '/');
            }
            let p1 = s.substring_char(0, i);
            let rest = s.substring_char(i + 1, len);
            proof {
                assert(rest@ =~= s@.skip(i + 1));
            }
            match find_from(rest, 0, '/') {
                None => {
                    if is_pid(p1) && is_pid(rest) {
                        ColumnType::PropertyQualifier(canon_pid(p1), canon_pid(rest))
                    } else {
                        ColumnType::Field(t.clone())
                    }
                },
                Some(j) => {
                    proof {
                        crate::text::lemma_find_from_bounds(rest@, 0, '/');
                    }
                    let rlen = rest.unicode_len();
                    let p2 = rest.substring_char(0, j);
                    let p3 = rest.substring_char(j + 1, rlen);
                    proof {
                        assert(p3@ =~= rest@.skip(j + 1));
                    }
                    let no_more = match find_from(p3, 0, '/') {
                        None => true,
                        Some(_) => false,
                    };
                    if no_more && is_pid(p1) && is_pid(p2) && is_pid(p3) {
                        ColumnType::PropertyQualifierValue(
                            canon_pid(p1),
                            canon_pid(p2),
                            canon_pid(p3),
                        )
                    } else {
                        ColumnType::Field(t.clone())
                    }
                },
            }
        },
    }
}

/// One table column: its parsed kind and its display label, which starts as
/// the trimmed raw token and may later be replaced by an entity label.
#[derive(Debug, Clone)]
pub struct Column {
    pub obj: ColumnType,
    pub label: String,
}

impl Column {
    pub fn new(s: &str) -> (c: Column)
        ensures
            c.obj.deep_view() == spec_column_type(s@),
            c.label@ == spec_trim(s@),
    {
        let obj = parse_column_type(s);
        let label = trim_str(s);
        Column { obj, label }
    }
}

impl DeepView for ColumnType {
    type V = ColumnTypeView;

    open spec fn deep_view(&self) -> ColumnTypeView {
        match self {
            ColumnType::Item => ColumnTypeView::Item,
            ColumnType::Number => ColumnTypeView::Number,
            ColumnType::Label => ColumnTypeView::Label,
            ColumnType::Field(s) => ColumnTypeView::Field(s@),
            ColumnType::Property(p) => ColumnTypeView::Property(p@),
            ColumnType::PropertyQualifier(p, q) => ColumnTypeView::PropertyQualifier(p@, q@),
            ColumnType::PropertyQualifierValue(p, q, p2) => ColumnTypeView::PropertyQualifierValue(
                p@,
                q@,
                p2@,
            ),
        }
    }
}

/// The mathematical shape of a `ColumnType`, over `Seq<char>`.
pub enum ColumnTypeView {
    Item,
    Number,
    Label,
    Field(Seq<char>),
    Property(Seq<char>),
    PropertyQualifier(Seq<char>, Seq<char>),
    PropertyQualifierValue(Seq<char>, Seq<char>, Seq<char>),
}

} // verus!
