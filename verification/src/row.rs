//! Result rows: one row per subject, holding one cell per configured
//! column; each cell is a list of parts, and a part may nest a list of
//! parts for qualifier chains. The stable, datatype-aware sort of rows is
//! verified here: ascending order sorts by the comparator of `sort`,
//! keeping equal keys in their input order, and descending order is the
//! exact reverse of the ascending result.

use crate::entity::SnakDataType;
use crate::sort::{spec_key_le, lemma_key_le_total, lemma_key_le_trans, key_le};
use vstd::prelude::*;

verus! {

/// One fragment of a rendered cell.
#[derive(Debug)]
pub enum ResultCellPart {
    /// The running row number.
    Number,
    /// An entity reference: its id, and whether a later pass may turn it
    /// into a local link.
    Entity(String, bool),
    /// A link to a local page: title, label, bold.
    LocalLink(String, String, bool),
    /// An external identifier: property and value.
    ExternalId(String, String),
    /// A media file name.
    File(String),
    /// A place: latitude, longitude, and the region when resolved.
    Location(String, String, Option<String>),
    /// Plain text.
    Text(String),
    /// Nested parts from a qualifier chain.
    SnakList(Vec<ResultCellPart>),
}

/// The mathematical shape of a cell part.
#[verifier::ext_equal]
pub enum PartView {
    Number,
    Entity(Seq<char>, bool),
    LocalLink(Seq<char>, Seq<char>, bool),
    ExternalId(Seq<char>, Seq<char>),
    File(Seq<char>),
    Location(Seq<char>, Seq<char>, Option<Seq<char>>),
    Text(Seq<char>),
    SnakList(Seq<PartView>),
}

pub open spec fn spec_part_view(p: ResultCellPart) -> PartView
    decreases p,
{
    match p {
        ResultCellPart::Number => PartView::Number,
        ResultCellPart::Entity(id, l) => PartView::Entity(id@, l),
        ResultCellPart::LocalLink(a, b, c) => PartView::LocalLink(a@, b@, c),
        ResultCellPart::ExternalId(a, b) => PartView::ExternalId(a@, b@),
        ResultCellPart::File(a) => PartView::File(a@),
        ResultCellPart::Location(a, b, r) => PartView::Location(
            a@,
            b@,
            match r {
                Some(x) => Some(x@),
                None => None,
            },
        ),
        ResultCellPart::Text(a) => PartView::Text(a@),
        ResultCellPart::SnakList(v) => PartView::SnakList(spec_part_views(v@)),
    }
}

pub open spec fn spec_part_views(s: Seq<ResultCellPart>) -> Seq<PartView>
    decreases s,
{
    if s.len() == 0 {
        Seq::empty()
    } else {
        seq![spec_part_view(s[0])] + spec_part_views(s.skip(1))
    }
}

/// Element-wise reading of `spec_part_views`.
pub proof fn lemma_part_views_index(s: Seq<ResultCellPart>)
    ensures
        spec_part_views(s).len() == s.len(),
        forall|i: int| 0 <= i < s.len() ==> spec_part_views(s)[i] == spec_part_view(s[i]),
    decreases s,
{
    if s.len() > 0 {
        lemma_part_views_index(s.skip(1));
        assert forall|i: int| 0 <= i < s.len() implies spec_part_views(s)[i] == spec_part_view(
            s[i],
        ) by {
            if i > 0 {
                assert(s.skip(1)[i - 1] == s[i]);
            }
        }
    }
}

/// Pushing on the right extends the views on the right.
pub proof fn lemma_part_views_push(s: Seq<ResultCellPart>, x: ResultCellPart)
    ensures
        spec_part_views(s.push(x)) =~= spec_part_views(s) + seq![spec_part_view(x)],
{
    lemma_part_views_index(s);
    lemma_part_views_index(s.push(x));
    assert forall|i: int| 0 <= i < s.len() + 1 implies spec_part_views(s.push(x))[i] == (
        spec_part_views(s) + seq![spec_part_view(x)])[i] by {
        if i < s.len() {
            assert(s.push(x)[i] == s[i]);
        } else {
            assert(s.push(x)[i] == x);
        }
    }
}

impl DeepView for ResultCellPart {
    type V = PartView;

    open spec fn deep_view(&self) -> PartView {
        spec_part_view(*self)
    }
}

impl ResultCellPart {
    /// An owned copy with the same view.
    pub fn duplicate(&self) -> (r: ResultCellPart)
        ensures
            r.deep_view() == self.deep_view(),
        decreases self,
    {
        match self {
            ResultCellPart::Number => ResultCellPart::Number,
            ResultCellPart::Entity(id, l) => ResultCellPart::Entity(id.clone(), *l),
            ResultCellPart::LocalLink(a, b, c) => ResultCellPart::LocalLink(
                a.clone(),
                b.clone(),
                *c,
            ),
            ResultCellPart::ExternalId(a, b) => ResultCellPart::ExternalId(a.clone(), b.clone()),
            ResultCellPart::File(a) => ResultCellPart::File(a.clone()),
            ResultCellPart::Location(a, b, r) => ResultCellPart::Location(
                a.clone(),
                b.clone(),
                match r {
                    Some(x) => Some(x.clone()),
                    None => None,
                },
            ),
            ResultCellPart::Text(a) => ResultCellPart::Text(a.clone()),
            ResultCellPart::SnakList(v) => {
                let n = v.len();
                let mut out: Vec<ResultCellPart> = Vec::new();
                let mut i: usize = 0;
                while i < n
                    invariant
                        n == v@.len(),
                        0 <= i <= n,
                        spec_part_views(out@) =~= spec_part_views(v@).take(i as int),
                    decreases n - i,
                {
                    proof {
                        lemma_part_views_index(v@);
                    }
                    let ghost pv = out@;
                    let x = v[i].duplicate();
                    let ghost xg = x;
                    out.push(x);
                    proof {
                        assert(out@ == pv.push(xg));
                        lemma_part_views_push(pv, xg);
                        lemma_part_views_index(pv);
                        assert(spec_part_view(xg) == spec_part_view(v@[i as int]));
                        assert(spec_part_views(out@) =~= spec_part_views(pv) + seq![
                            spec_part_view(xg),
                        ]);
                        assert(spec_part_views(v@).take(i as int + 1) =~= spec_part_views(
                            v@,
                        ).take(i as int) + seq![spec_part_views(v@)[i as int]]);
                        assert(spec_part_views(pv) == spec_part_views(v@).take(i as int));
                        assert(spec_part_views(pv) + seq![spec_part_view(xg)] == spec_part_views(
                            v@,
                        ).take(i as int) + seq![spec_part_views(v@)[i as int]]);
                        assert(spec_part_views(out@) =~= spec_part_views(v@).take(i as int + 1));
                    }
                    i += 1;
                }
                proof {
                    lemma_part_views_index(v@);
                    assert(spec_part_views(v@).take(n as int) =~= spec_part_views(v@));
                }
                ResultCellPart::SnakList(out)
            },
        }
    }
}

/// One cell: the parts that render in one column of one row.
#[derive(Debug)]
pub struct ResultCell {
    pub parts: Vec<ResultCellPart>,
}

impl DeepView for ResultCell {
    type V = Seq<PartView>;

    open spec fn deep_view(&self) -> Seq<PartView> {
        spec_part_views(self.parts@)
    }
}

impl ResultCell {
    pub fn new_from_parts(parts: Vec<ResultCellPart>) -> (r: ResultCell)
        ensures
            r.deep_view() == spec_part_views(parts@),
    {
        ResultCell { parts }
    }

    pub fn parts(&self) -> (r: &Vec<ResultCellPart>)
        ensures
            r == &self.parts,
    {
        &self.parts
    }
}

/// One row of the result table.
#[derive(Debug)]
pub struct ResultRow {
    pub entity_id: String,
    pub cells: Vec<ResultCell>,
    pub sortkey: String,
    pub section: usize,
}

/// The mathematical shape of a row.
#[verifier::ext_equal]
pub struct RowView {
    pub entity_id: Seq<char>,
    pub cells: Seq<Seq<PartView>>,
    pub sortkey: Seq<char>,
    pub section: int,
}

impl DeepView for ResultRow {
    type V = RowView;

    open spec fn deep_view(&self) -> RowView {
        RowView {
            entity_id: self.entity_id@,
            cells: self.cells.deep_view(),
            sortkey: self.sortkey@,
            section: self.section as int,
        }
    }
}

impl ResultRow {
    /// A fresh row for a subject: no cells, empty sort key, section 0.
    pub fn new(entity_id: &str) -> (r: ResultRow)
        ensures
            r.deep_view().entity_id == entity_id@,
            r.deep_view().cells.len() == 0,
            r.deep_view().sortkey.len() == 0,
            r.deep_view().section == 0,
    {
        let r = ResultRow {
            entity_id: String::from_str(entity_id),
            cells: Vec::new(),
            sortkey: String::new(),
            section: 0,
        };
        proof {
            assert(r.deep_view().cells =~= Seq::<Seq<PartView>>::empty());
        }
        r
    }

    pub fn entity_id(&self) -> (r: &String)
        ensures
            r@ == self.deep_view().entity_id,
    {
        &self.entity_id
    }

    pub fn cells(&self) -> (r: &Vec<ResultCell>)
        ensures
            r == &self.cells,
    {
        &self.cells
    }

    pub fn set_cells(&mut self, cells: Vec<ResultCell>)
        ensures
            final(self).deep_view() == (RowView {
                cells: cells.deep_view(),
                ..old(self).deep_view()
            }),
            final(self).entity_id == old(self).entity_id,
            final(self).sortkey == old(self).sortkey,
            final(self).section == old(self).section,
    {
        self.cells = cells;
    }

    pub fn set_sortkey(&mut self, sortkey: String)
        ensures
            final(self).deep_view() == (RowView {
                sortkey: sortkey@,
                ..old(self).deep_view()
            }),
            final(self).entity_id == old(self).entity_id,
            final(self).cells == old(self).cells,
            final(self).section == old(self).section,
    {
        self.sortkey = sortkey;
    }

    pub fn section(&self) -> (r: usize)
        ensures
            r as int == self.deep_view().section,
    {
        self.section
    }

    pub fn set_section(&mut self, section: usize)
        ensures
            final(self).deep_view() == (RowView {
                section: section as int,
                ..old(self).deep_view()
            }),
            final(self).entity_id == old(self).entity_id,
            final(self).cells == old(self).cells,
            final(self).sortkey == old(self).sortkey,
    {
        self.section = section;
    }
}

/// Key order lifted to rows.
pub open spec fn row_le(a: RowView, b: RowView, dt: SnakDataType) -> bool {
    spec_key_le(a.sortkey, b.sortkey, dt)
}

/// Strictly smaller: at most and not tied.
pub open spec fn row_lt(a: RowView, b: RowView, dt: SnakDataType) -> bool {
    row_le(a, b, dt) && !row_le(b, a, dt)
}

/// Tied keys: each at most the other.
pub open spec fn row_tie(a: RowView, b: RowView, dt: SnakDataType) -> bool {
    row_le(a, b, dt) && row_le(b, a, dt)
}

/// The rows tied with `pivot`, as a predicate.
pub open spec fn tie_pred(pivot: RowView, dt: SnakDataType) -> spec_fn(RowView) -> bool {
    |r: RowView| row_tie(r, pivot, dt)
}

/// Insert `x` into the sorted sequence `s`, after every element not
/// strictly greater than `x`: the insertion a stable sort makes.
pub open spec fn spec_insert_row(x: RowView, s: Seq<RowView>, dt: SnakDataType) -> Seq<RowView>
    decreases s.len(),
{
    if s.len() == 0 {
        seq![x]
    } else if row_lt(x, s[0], dt) {
        seq![x] + s
    } else {
        seq![s[0]] + spec_insert_row(x, s.skip(1), dt)
    }
}

/// The stable ascending sort: insert each element, left to right, into the
/// sorted sequence of those before it.
pub open spec fn spec_stable_sort(s: Seq<RowView>, dt: SnakDataType) -> Seq<RowView>
    decreases s.len(),
{
    if s.len() == 0 {
        Seq::empty()
    } else {
        spec_insert_row(s.last(), spec_stable_sort(s.drop_last(), dt), dt)
    }
}

/// Adjacent elements are in order.
pub open spec fn spec_sorted(s: Seq<RowView>, dt: SnakDataType) -> bool {
    forall|i: int| 0 <= i < s.len() - 1 ==> row_le(#[trigger] s[i], s[i + 1], dt)
}

/// Inserting into a sorted sequence keeps it sorted.
pub proof fn lemma_insert_sorted(x: RowView, s: Seq<RowView>, dt: SnakDataType)
    requires
        spec_sorted(s, dt),
    ensures
        spec_sorted(spec_insert_row(x, s, dt), dt),
        spec_insert_row(x, s, dt).len() == s.len() + 1,
    decreases s.len(),
{
    if s.len() == 0 {
    } else if row_lt(x, s[0], dt) {
        let r = seq![x] + s;
        assert forall|i: int| 0 <= i < r.len() - 1 implies row_le(#[trigger] r[i], r[i + 1], dt)
            by {
            if i == 0 {
            } else {
                assert(r[i] == s[i - 1] && r[i + 1] == s[i]);
            }
        }
    } else {
        lemma_key_le_total(x.sortkey, s[0].sortkey, dt);
        assert(row_le(s[0], x, dt));
        assert(spec_sorted(s.skip(1), dt)) by {
            assert forall|i: int| 0 <= i < s.skip(1).len() - 1 implies row_le(
                #[trigger] s.skip(1)[i],
                s.skip(1)[i + 1],
                dt,
            ) by {
                assert(s.skip(1)[i] == s[i + 1] && s.skip(1)[i + 1] == s[i + 2]);
            }
        }
        lemma_insert_sorted(x, s.skip(1), dt);
        let t = spec_insert_row(x, s.skip(1), dt);
        let r = seq![s[0]] + t;
        assert forall|i: int| 0 <= i < r.len() - 1 implies row_le(#[trigger] r[i], r[i + 1], dt)
            by {
            if i == 0 {
                // the head is at most x and at most the old second element,
                // whichever leads the inserted tail
                if s.len() == 1 {
                    assert(t[0] == x);
                } else if row_lt(x, s.skip(1)[0], dt) {
                    assert(t[0] == x);
                } else {
                    assert(t[0] == s.skip(1)[0]);
                    assert(s.skip(1)[0] == s[1]);
                }
            } else {
                assert(r[i] == t[i - 1] && r[i + 1] == t[i]);
            }
        }
    }
}

/// Insertion adds exactly the new element.
pub proof fn lemma_insert_multiset(x: RowView, s: Seq<RowView>, dt: SnakDataType)
    ensures
        spec_insert_row(x, s, dt).to_multiset() == s.to_multiset().insert(x),
    decreases s.len(),
{
    broadcast use vstd::seq_lib::group_to_multiset_ensures;

    if s.len() == 0 {
        assert(spec_insert_row(x, s, dt) =~= seq![x]);
        assert(seq![x].to_multiset() =~= s.to_multiset().insert(x)) by {
            assert(seq![x] =~= s.push(x));
        }
    } else if row_lt(x, s[0], dt) {
        assert(seq![x] + s =~= s.insert(0, x));
        assert(s.insert(0, x).to_multiset() == s.to_multiset().insert(x));
    } else {
        lemma_insert_multiset(x, s.skip(1), dt);
        let t = spec_insert_row(x, s.skip(1), dt);
        assert(seq![s[0]] + t =~= t.insert(0, s[0]));
        assert(t.insert(0, s[0]).to_multiset() == t.to_multiset().insert(s[0]));
        assert(s =~= s.skip(1).insert(0, s[0]));
        assert(s.to_multiset() == s.skip(1).to_multiset().insert(s[0]));
        assert(s.skip(1).to_multiset().insert(x).insert(s[0]) =~= s.skip(
            1,
        ).to_multiset().insert(s[0]).insert(x));
    }
}

/// The sort is a permutation.
pub proof fn lemma_sort_multiset(s: Seq<RowView>, dt: SnakDataType)
    ensures
        spec_stable_sort(s, dt).to_multiset() == s.to_multiset(),
        spec_stable_sort(s, dt).len() == s.len(),
    decreases s.len(),
{
    broadcast use vstd::seq_lib::group_to_multiset_ensures;

    if s.len() > 0 {
        lemma_sort_multiset(s.drop_last(), dt);
        lemma_insert_multiset(s.last(), spec_stable_sort(s.drop_last(), dt), dt);
        lemma_insert_len(s.last(), spec_stable_sort(s.drop_last(), dt), dt);
        assert(s =~= s.drop_last().push(s.last()));
        assert(s.to_multiset() == s.drop_last().to_multiset().insert(s.last()));
    }
}

pub proof fn lemma_insert_len(x: RowView, s: Seq<RowView>, dt: SnakDataType)
    ensures
        spec_insert_row(x, s, dt).len() == s.len() + 1,
    decreases s.len(),
{
    if s.len() > 0 && !row_lt(x, s[0], dt) {
        lemma_insert_len(x, s.skip(1), dt);
    }
}

/// The sorted result is sorted.
pub proof fn lemma_sort_sorted(s: Seq<RowView>, dt: SnakDataType)
    ensures
        spec_sorted(spec_stable_sort(s, dt), dt),
    decreases s.len(),
{
    if s.len() > 0 {
        lemma_sort_sorted(s.drop_last(), dt);
        lemma_insert_sorted(s.last(), spec_stable_sort(s.drop_last(), dt), dt);
    }
}

/// Adjacent order extends to all index pairs.
pub proof fn lemma_sorted_indices(s: Seq<RowView>, dt: SnakDataType, i: int, j: int)
    requires
        spec_sorted(s, dt),
        0 <= i <= j < s.len(),
    ensures
        row_le(s[i], s[j], dt),
    decreases j - i,
{
    if i == j {
        lemma_key_le_total(s[i].sortkey, s[j].sortkey, dt);
    } else {
        lemma_sorted_indices(s, dt, i, j - 1);
        lemma_key_le_trans(s[i].sortkey, s[j - 1].sortkey, s[j].sortkey, dt);
    }
}

proof fn lemma_sorted_skip1(s: Seq<RowView>, dt: SnakDataType)
    requires
        spec_sorted(s, dt),
        s.len() > 0,
    ensures
        spec_sorted(s.skip(1), dt),
{
    assert forall|i: int| 0 <= i < s.skip(1).len() - 1 implies row_le(
        #[trigger] s.skip(1)[i],
        s.skip(1)[i + 1],
        dt,
    ) by {
        assert(s.skip(1)[i] == s[i + 1] && s.skip(1)[i + 1] == s[i + 2]);
    }
}

proof fn lemma_filter_none(s: Seq<RowView>, pred: spec_fn(RowView) -> bool)
    requires
        forall|i: int| 0 <= i < s.len() ==> !pred(#[trigger] s[i]),
    ensures
        s.filter(pred) == Seq::<RowView>::empty(),
    decreases s.len(),
{
    reveal(Seq::filter);
    if s.len() > 0 {
        assert(forall|i: int|
            0 <= i < s.drop_last().len() ==> !pred(#[trigger] s.drop_last()[i]));
        lemma_filter_none(s.drop_last(), pred);
        assert(!pred(s.last()));
    } else {
        assert(s =~= Seq::<RowView>::empty());
    }
}

/// What a stable insertion does to the rows tied with `pivot`: a tied
/// element joins them at the end, any other element leaves them alone.
pub proof fn lemma_insert_filter(x: RowView, s: Seq<RowView>, dt: SnakDataType, pivot: RowView)
    requires
        spec_sorted(s, dt),
    ensures
        spec_insert_row(x, s, dt).filter(tie_pred(pivot, dt)) == (if row_tie(x, pivot, dt) {
            s.filter(tie_pred(pivot, dt)).push(x)
        } else {
            s.filter(tie_pred(pivot, dt))
        }),
    decreases s.len(),
{
    broadcast use vstd::seq_lib::group_filter_ensures;

    reveal(Seq::filter);
    let pred = tie_pred(pivot, dt);
    assert(forall|r: RowView| #[trigger] pred(r) == row_tie(r, pivot, dt));
    if s.len() == 0 {
        assert(seq![x].drop_last() =~= Seq::<RowView>::empty());
        assert(seq![x].last() == x);
        if pred(x) {
            assert(seq![x].filter(pred) =~= Seq::<RowView>::empty().push(x));
            assert(s.filter(pred) =~= Seq::<RowView>::empty());
        } else {
            assert(seq![x].filter(pred) =~= Seq::<RowView>::empty());
        }
    } else if row_lt(x, s[0], dt) {
        Seq::filter_distributes_over_add(seq![x], s, pred);
        assert(seq![x].drop_last() =~= Seq::<RowView>::empty());
        if pred(x) {
            // nothing in `s` can be tied with `pivot`: every element is
            // strictly above `x`, which is tied with `pivot`
            assert forall|i: int| 0 <= i < s.len() implies !pred(#[trigger] s[i]) by {
                lemma_sorted_indices(s, dt, 0, i);
                if pred(s[i]) {
                    lemma_key_le_trans(s[i].sortkey, pivot.sortkey, x.sortkey, dt);
                    lemma_key_le_trans(s[0].sortkey, s[i].sortkey, x.sortkey, dt);
                }
            }
            lemma_filter_none(s, pred);
            assert(seq![x].filter(pred) =~= Seq::<RowView>::empty().push(x));
            assert(seq![x].filter(pred) + s.filter(pred) =~= s.filter(pred).push(x));
        } else {
            assert(Seq::<RowView>::empty().filter(pred) =~= Seq::<RowView>::empty());
            assert(seq![x].filter(pred) =~= Seq::<RowView>::empty());
            assert(seq![x].filter(pred) + s.filter(pred) =~= s.filter(pred));
        }
    } else {
        lemma_sorted_skip1(s, dt);
        lemma_insert_filter(x, s.skip(1), dt, pivot);
        let t = spec_insert_row(x, s.skip(1), dt);
        Seq::filter_distributes_over_add(seq![s[0]], t, pred);
        Seq::filter_distributes_over_add(seq![s[0]], s.skip(1), pred);
        assert(seq![s[0]] + s.skip(1) =~= s);
        if pred(x) {
            assert(seq![s[0]].filter(pred) + s.skip(1).filter(pred).push(x) =~= (seq![
                s[0],
            ].filter(pred) + s.skip(1).filter(pred)).push(x));
        }
    }
}

/// The stable sort keeps rows with equal sort keys in their input order:
/// for any pivot key, the subsequence of rows tied with it is unchanged by
/// the ascending sort.
pub proof fn lemma_sort_stable(s: Seq<RowView>, dt: SnakDataType, pivot: RowView)
    ensures
        spec_stable_sort(s, dt).filter(tie_pred(pivot, dt)) == s.filter(tie_pred(pivot, dt)),
    decreases s.len(),
{
    reveal(Seq::filter);
    let pred = tie_pred(pivot, dt);
    if s.len() > 0 {
        lemma_sort_stable(s.drop_last(), dt, pivot);
        lemma_sort_sorted(s.drop_last(), dt);
        lemma_insert_filter(s.last(), spec_stable_sort(s.drop_last(), dt), dt, pivot);
    }
}

/// Whether `a` is strictly below `b` under the datatype's key order.
fn lt_row(a: &ResultRow, b: &ResultRow, dt: &SnakDataType) -> (r: bool)
    ensures
        r == row_lt(a.deep_view(), b.deep_view(), *dt),
{
    let le1 = key_le(a.sortkey.as_str(), b.sortkey.as_str(), dt);
    let le2 = key_le(b.sortkey.as_str(), a.sortkey.as_str(), dt);
    le1 && !le2
}

/// Stable insertion splits the target at the first strictly greater
/// element.
proof fn lemma_insert_at(x: RowView, s: Seq<RowView>, k: int, dt: SnakDataType)
    requires
        0 <= k <= s.len(),
        forall|j: int| 0 <= j < k ==> !row_lt(x, #[trigger] s[j], dt),
        k < s.len() ==> row_lt(x, s[k], dt),
    ensures
        spec_insert_row(x, s, dt) == s.take(k) + seq![x] + s.skip(k),
    decreases k,
{
    if s.len() == 0 {
        assert(s.take(0) + seq![x] + s.skip(0) =~= seq![x]);
    } else if k == 0 {
        assert(s.take(0) + seq![x] + s.skip(0) =~= seq![x] + s);
    } else {
        lemma_insert_at(x, s.skip(1), k - 1, dt);
        assert(forall|j: int|
            0 <= j < k - 1 ==> !row_lt(x, #[trigger] s.skip(1)[j], dt)) by {
            assert(forall|j: int| 0 <= j < k - 1 ==> s.skip(1)[j] == s[j + 1]);
        }
        assert(seq![s[0]] + (s.skip(1).take(k - 1) + seq![x] + s.skip(1).skip(k - 1)) =~= s.take(
            k,
        ) + seq![x] + s.skip(k));
    }
}

/// The views of a sequence of rows.
pub open spec fn spec_rows_views(s: Seq<ResultRow>) -> Seq<RowView> {
    Seq::new(s.len(), |i: int| s[i].deep_view())
}

/// A row `Vec`'s deep view reads the element views.
pub proof fn lemma_rows_views(v: Vec<ResultRow>)
    ensures
        v.deep_view() =~= spec_rows_views(v@),
{
}

/// Sort the rows ascending by the datatype-aware key order, stably: the
/// result is exactly the stable insertion sort of the input.
pub fn sort_rows(rows: Vec<ResultRow>, dt: &SnakDataType) -> (r: Vec<ResultRow>)
    ensures
        r.deep_view() == spec_stable_sort(rows.deep_view(), *dt),
{
    let ghost origv = rows@;
    let ghost orig = spec_rows_views(origv);
    proof {
        lemma_rows_views(rows);
    }
    let mut rows = rows;
    let mut out: Vec<ResultRow> = Vec::new();
    proof {
        assert(orig.take(0) =~= Seq::<RowView>::empty());
        assert(out.deep_view() =~= Seq::<RowView>::empty());
        assert(rows@ =~= origv.skip(0));
    }
    while rows.len() > 0
        invariant
            rows@ =~= origv.skip(origv.len() - rows@.len()),
            rows@.len() <= origv.len(),
            out.deep_view() == spec_stable_sort(orig.take(origv.len() - rows@.len()), *dt),
        decreases rows@.len(),
    {
        let ghost done = origv.len() - rows@.len();
        let ghost head = rows@;
        let x = rows.remove(0);
        let ghost xv = x.deep_view();
        proof {
            assert(x == head[0]);
            assert(head[0] == origv[done]);
            assert(xv == orig[done]);
            assert(rows@ =~= origv.skip(done + 1)) by {
                assert(rows@ =~= head.skip(1));
            }
        }
        let n = out.len();
        let mut k: usize = 0;
        while k < n && !lt_row(&x, &out[k], dt)
            invariant
                n == out@.len(),
                0 <= k <= n,
                forall|j: int| 0 <= j < k ==> !row_lt(xv, #[trigger] out.deep_view()[j], *dt),
            decreases n - k,
        {
            proof {
                assert(out.deep_view()[k as int] == out@[k as int].deep_view());
            }
            k += 1;
        }
        let ghost before = out.deep_view();
        proof {
            if k < n {
                assert(out.deep_view()[k as int] == out@[k as int].deep_view());
            }
            lemma_insert_at(xv, before, k as int, *dt);
        }
        let ghost outb = out@;
        out.insert(k, x);
        proof {
            assert(out@ == outb.insert(k as int, x));
            assert(out.deep_view() =~= before.take(k as int) + seq![xv] + before.skip(k as int))
                by {
                assert forall|j: int| 0 <= j < out@.len() implies out.deep_view()[j] == (
                    before.take(k as int) + seq![xv] + before.skip(k as int))[j] by {
                    assert(out.deep_view()[j] == out@[j].deep_view());
                    if j < k {
                        assert(out@[j] == outb[j]);
                        assert(before[j] == outb[j].deep_view());
                    } else if j == k {
                        assert(out@[j] == x);
                    } else {
                        assert(out@[j] == outb[j - 1]);
                        assert(before[j - 1] == outb[j - 1].deep_view());
                    }
                }
            }
            assert(orig.take(done + 1).drop_last() =~= orig.take(done));
            assert(orig.take(done + 1).last() == orig[done]);
            assert(out.deep_view() == spec_stable_sort(orig.take(done + 1), *dt));
        }
    }
    proof {
        assert(orig.take(origv.len() as int) =~= orig);
    }
    out
}

/// Reverse the rows: element `i` of the result is element `len - 1 - i` of
/// the input.
pub fn reverse_rows(rows: Vec<ResultRow>) -> (r: Vec<ResultRow>)
    ensures
        r.deep_view() == rows.deep_view().reverse(),
{
    let ghost origv = rows@;
    let ghost orig = spec_rows_views(origv);
    proof {
        lemma_rows_views(rows);
    }
    let mut rows = rows;
    let mut out: Vec<ResultRow> = Vec::new();
    proof {
        assert(out.deep_view() =~= orig.skip(origv.len() as int).reverse());
    }
    while rows.len() > 0
        invariant
            rows@ =~= origv.take(rows@.len() as int),
            rows@.len() <= origv.len(),
            out.deep_view() =~= orig.skip(rows@.len() as int).reverse(),
        decreases rows@.len(),
    {
        let ghost head = rows@;
        let ghost outb = out@;
        let ghost outbv = out.deep_view();
        let x = match rows.pop() {
            Some(x) => x,
            None => {
                proof {
                    assert(false);
                }
                return out;
            },
        };
        let ghost xv = x.deep_view();
        out.push(x);
        proof {
            assert(x == head.last());
            assert(head.last() == origv[head.len() - 1]);
            assert(xv == orig[head.len() - 1]);
            assert(rows@ =~= origv.take(rows@.len() as int)) by {
                assert(rows@ =~= head.drop_last());
            }
            assert(out@ == outb.push(x));
            assert(out.deep_view() =~= outbv.push(xv)) by {
                assert forall|j: int| 0 <= j < out@.len() implies out.deep_view()[j]
                    == outbv.push(xv)[j] by {
                    assert(out.deep_view()[j] == out@[j].deep_view());
                    if j < outb.len() {
                        assert(out@[j] == outb[j]);
                        assert(outbv[j] == outb[j].deep_view());
                    } else {
                        assert(out@[j] == x);
                    }
                }
            }
            assert(out.deep_view() =~= orig.skip(rows@.len() as int).reverse());
        }
    }
    proof {
        assert(orig.skip(0) =~= orig);
        assert(rows@ =~= origv.take(rows@.len() as int));
    }
    out
}

} // verus!
