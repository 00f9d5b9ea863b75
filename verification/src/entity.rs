//! The library's own model of a knowledge-base entity record: an item or
//! property with labels per locale, sitelinks per wiki, and statements with
//! ranks and qualifiers. The embedding program converts fetched records into
//! this shape; everything the pipeline reads from an entity it reads from
//! here.

use vstd::prelude::*;

verus! {

#[derive(Debug, Clone, Copy, PartialEq, Eq, Structural)]
#[verifier::ext_equal]
pub enum EntityKind {
    Item,
    Property,
}

#[derive(Debug, Clone, Copy, PartialEq, Eq, Structural)]
#[verifier::ext_equal]
pub enum StatementRank {
    Preferred,
    Normal,
    Deprecated,
}

/// The declared datatype of a snak or of a property entity.
#[derive(Debug, Clone, Copy, PartialEq, Eq, Structural)]
#[verifier::ext_equal]
pub enum SnakDataType {
    WikibaseItem,
    StringType,
    ExternalId,
    CommonsMedia,
    Time,
    Quantity,
    GlobeCoordinate,
    MonolingualText,
    Url,
    Other,
}

/// The value a snak carries.
#[derive(Debug)]
pub enum SnakValue {
    Entity(String),
    StringValue(String),
    Time(String),
    /// Latitude and longitude as decimal text.
    Coordinate(String, String),
    /// The amount as decimal text.
    Quantity(String),
    /// Language and text.
    MonolingualText(String, String),
    NoValue,
}

#[verifier::ext_equal]
pub enum SnakValueView {
    Entity(Seq<char>),
    StringValue(Seq<char>),
    Time(Seq<char>),
    Coordinate(Seq<char>, Seq<char>),
    Quantity(Seq<char>),
    MonolingualText(Seq<char>, Seq<char>),
    NoValue,
}

impl DeepView for SnakValue {
    type V = SnakValueView;

    open spec fn deep_view(&self) -> SnakValueView {
        match self {
            SnakValue::Entity(s) => SnakValueView::Entity(s@),
            SnakValue::StringValue(s) => SnakValueView::StringValue(s@),
            SnakValue::Time(s) => SnakValueView::Time(s@),
            SnakValue::Coordinate(a, b) => SnakValueView::Coordinate(a@, b@),
            SnakValue::Quantity(s) => SnakValueView::Quantity(s@),
            SnakValue::MonolingualText(a, b) => SnakValueView::MonolingualText(a@, b@),
            SnakValue::NoValue => SnakValueView::NoValue,
        }
    }
}

impl SnakValue {
    pub fn duplicate(&self) -> (r: SnakValue)
        ensures
            r.deep_view() == self.deep_view(),
    {
        match self {
            SnakValue::Entity(s) => SnakValue::Entity(s.clone()),
            SnakValue::StringValue(s) => SnakValue::StringValue(s.clone()),
            SnakValue::Time(s) => SnakValue::Time(s.clone()),
            SnakValue::Coordinate(a, b) => SnakValue::Coordinate(a.clone(), b.clone()),
            SnakValue::Quantity(s) => SnakValue::Quantity(s.clone()),
            SnakValue::MonolingualText(a, b) => SnakValue::MonolingualText(a.clone(), b.clone()),
            SnakValue::NoValue => SnakValue::NoValue,
        }
    }
}

/// One qualifier of a statement: a property and the value it carries.
#[derive(Debug)]
pub struct Qualifier {
    pub property: String,
    pub datatype: SnakDataType,
    pub value: SnakValue,
}

#[verifier::ext_equal]
pub struct QualifierView {
    pub property: Seq<char>,
    pub datatype: SnakDataType,
    pub value: SnakValueView,
}

impl DeepView for Qualifier {
    type V = QualifierView;

    open spec fn deep_view(&self) -> QualifierView {
        QualifierView {
            property: self.property@,
            datatype: self.datatype,
            value: self.value.deep_view(),
        }
    }
}

impl Qualifier {
    pub fn duplicate(&self) -> (r: Qualifier)
        ensures
            r.deep_view() == self.deep_view(),
    {
        Qualifier {
            property: self.property.clone(),
            datatype: self.datatype,
            value: self.value.duplicate(),
        }
    }
}

/// One statement (claim) of an entity.
#[derive(Debug)]
pub struct Statement {
    pub property: String,
    pub rank: StatementRank,
    pub datatype: SnakDataType,
    pub value: SnakValue,
    pub qualifiers: Vec<Qualifier>,
}

#[verifier::ext_equal]
pub struct StatementView {
    pub property: Seq<char>,
    pub rank: StatementRank,
    pub datatype: SnakDataType,
    pub value: SnakValueView,
    pub qualifiers: Seq<QualifierView>,
}

impl DeepView for Statement {
    type V = StatementView;

    open spec fn deep_view(&self) -> StatementView {
        StatementView {
            property: self.property@,
            rank: self.rank,
            datatype: self.datatype,
            value: self.value.deep_view(),
            qualifiers: self.qualifiers.deep_view(),
        }
    }
}

impl Statement {
    pub fn duplicate(&self) -> (r: Statement)
        ensures
            r.deep_view() == self.deep_view(),
    {
        let n = self.qualifiers.len();
        let mut qualifiers: Vec<Qualifier> = Vec::new();
        let mut i: usize = 0;
        while i < n
            invariant
                n == self.qualifiers@.len(),
                0 <= i <= n,
                qualifiers.deep_view() =~= self.qualifiers.deep_view().take(i as int),
            decreases n - i,
        {
            let x = self.qualifiers[i].duplicate();
            let ghost xv = x.deep_view();
            let ghost pv = qualifiers@;
            proof {
                assert(qualifiers.deep_view() =~= self.qualifiers.deep_view().take(i as int));
                assert(qualifiers.deep_view().len() == i as int);
                assert(qualifiers.deep_view().len() == pv.len());
                assert(pv.len() == i as int);
            }
            qualifiers.push(x);
            proof {
                assert(qualifiers@ == pv.push(x));
                assert(qualifiers@.len() == i as int + 1);
                assert(xv == self.qualifiers@[i as int].deep_view());
                assert forall|k: int| 0 <= k < qualifiers@.len() implies qualifiers.deep_view()[k]
                    == self.qualifiers.deep_view().take(i as int + 1)[k] by {
                    if k < i {
                        assert(qualifiers@[k] == pv[k]);
                        assert(qualifiers.deep_view()[k] == pv[k].deep_view());
                    } else {
                        assert(qualifiers@[k] == x);
                    }
                }
                assert(qualifiers.deep_view() =~= self.qualifiers.deep_view().take(i as int + 1));
            }
            i += 1;
        }
        proof {
            assert(self.qualifiers.deep_view().take(n as int) =~= self.qualifiers.deep_view());
        }
        Statement {
            property: self.property.clone(),
            rank: self.rank,
            datatype: self.datatype,
            value: self.value.duplicate(),
            qualifiers,
        }
    }
}

/// A knowledge-base entity record.
#[derive(Debug)]
pub struct Entity {
    pub id: String,
    pub kind: EntityKind,
    /// `(language, label)` pairs.
    pub labels: Vec<(String, String)>,
    /// `(site, page title)` pairs.
    pub sitelinks: Vec<(String, String)>,
    pub statements: Vec<Statement>,
    /// The declared datatype, for property entities.
    pub datatype: Option<SnakDataType>,
}

#[verifier::ext_equal]
pub struct EntityView {
    pub id: Seq<char>,
    pub kind: EntityKind,
    pub labels: Seq<(Seq<char>, Seq<char>)>,
    pub sitelinks: Seq<(Seq<char>, Seq<char>)>,
    pub statements: Seq<StatementView>,
    pub datatype: Option<SnakDataType>,
}

/// The view of a list of `(String, String)` pairs.
pub open spec fn spec_pairs_view(s: Seq<(String, String)>) -> Seq<(Seq<char>, Seq<char>)> {
    Seq::new(s.len(), |i: int| (s[i].0@, s[i].1@))
}

impl DeepView for Entity {
    type V = EntityView;

    open spec fn deep_view(&self) -> EntityView {
        EntityView {
            id: self.id@,
            kind: self.kind,
            labels: spec_pairs_view(self.labels@),
            sitelinks: spec_pairs_view(self.sitelinks@),
            statements: self.statements.deep_view(),
            datatype: self.datatype,
        }
    }
}

/// Copy a list of string pairs, preserving its view.
pub fn clone_pairs(pairs: &Vec<(String, String)>) -> (r: Vec<(String, String)>)
    ensures
        spec_pairs_view(r@) =~= spec_pairs_view(pairs@),
{
    let n = pairs.len();
    let mut out: Vec<(String, String)> = Vec::new();
    let mut i: usize = 0;
    while i < n
        invariant
            n == pairs@.len(),
            0 <= i <= n,
            spec_pairs_view(out@) =~= spec_pairs_view(pairs@).take(i as int),
        decreases n - i,
    {
            let pair = &pairs[i];
            let ghost pv = out@;
            proof {
                assert(spec_pairs_view(pv).len() == pv.len());
                assert(pv.len() == i as int);
            }
            out.push((pair.0.clone(), pair.1.clone()));
            proof {
                assert(out@ == pv.push((out@[i as int].0, out@[i as int].1)));
                assert forall|k: int| 0 <= k < out@.len() implies spec_pairs_view(out@)[k]
                    == spec_pairs_view(pairs@).take(i as int + 1)[k] by {
                    if k < i {
                        assert(out@[k] == pv[k]);
                    }
                }
                assert(spec_pairs_view(out@) =~= spec_pairs_view(pairs@).take(i as int + 1));
            }
            i += 1;
        }
    proof {
        assert(spec_pairs_view(pairs@).take(n as int) =~= spec_pairs_view(pairs@));
    }
    out
}

impl Entity {
    /// An owned copy with the same view.
    pub fn duplicate(&self) -> (r: Entity)
        ensures
            r.deep_view() == self.deep_view(),
    {
        let n = self.statements.len();
        let mut statements: Vec<Statement> = Vec::new();
        let mut i: usize = 0;
        while i < n
            invariant
                n == self.statements@.len(),
                0 <= i <= n,
                statements.deep_view() =~= self.statements.deep_view().take(i as int),
            decreases n - i,
        {
            let x = self.statements[i].duplicate();
            let ghost xv = x.deep_view();
            let ghost pv = statements@;
            proof {
                assert(statements.deep_view().len() == i as int);
                assert(statements.deep_view().len() == pv.len());
            }
            statements.push(x);
            proof {
                assert(statements@ == pv.push(x));
                assert forall|k: int| 0 <= k < statements@.len() implies statements.deep_view()[k]
                    == self.statements.deep_view().take(i as int + 1)[k] by {
                    if k < i {
                        assert(statements@[k] == pv[k]);
                        assert(statements.deep_view()[k] == pv[k].deep_view());
                    } else {
                        assert(statements@[k] == x);
                    }
                }
                assert(statements.deep_view() =~= self.statements.deep_view().take(i as int + 1));
            }
            i += 1;
        }
        proof {
            assert(self.statements.deep_view().take(n as int) =~= self.statements.deep_view());
        }
        let r = Entity {
            id: self.id.clone(),
            kind: self.kind,
            labels: clone_pairs(&self.labels),
            sitelinks: clone_pairs(&self.sitelinks),
            statements,
            datatype: self.datatype,
        };
        proof {
            assert(r.deep_view() == self.deep_view()) by {
                assert(r.deep_view().labels =~= self.deep_view().labels);
                assert(r.deep_view().sitelinks =~= self.deep_view().sitelinks);
                assert(r.deep_view().statements =~= self.deep_view().statements);
            }
        }
        r
    }
}

/// The first value under `key` in a pair list, if any.
pub open spec fn spec_pair_lookup(pairs: Seq<(Seq<char>, Seq<char>)>, key: Seq<char>) -> Option<
    Seq<char>,
>
    decreases pairs.len(),
{
    if pairs.len() == 0 {
        None
    } else if pairs[0].0 == key {
        Some(pairs[0].1)
    } else {
        spec_pair_lookup(pairs.skip(1), key)
    }
}

/// First-match lookup in a `Vec` of string pairs.
pub fn pair_lookup<'a>(pairs: &'a Vec<(String, String)>, key: &str) -> (r: Option<&'a String>)
    ensures
        match r {
            Some(x) => spec_pair_lookup(spec_pairs_view(pairs@), key@) == Some(x@),
            None => spec_pair_lookup(spec_pairs_view(pairs@), key@) is None,
        },
{
    let ghost all = spec_pairs_view(pairs@);
    let n = pairs.len();
    let mut i: usize = 0;
    proof {
        assert(all.skip(0) =~= all);
    }
    while i < n
        invariant
            n == pairs@.len(),
            0 <= i <= n,
            all == spec_pairs_view(pairs@),
            spec_pair_lookup(all.skip(i as int), key@) == spec_pair_lookup(all, key@),
        decreases n - i,
    {
        proof {
            assert(all.skip(i as int)[0] == all[i as int]);
        }
        let pair = &pairs[i];
        if crate::text::str_eq(pair.0.as_str(), key) {
            return Some(&pair.1);
        }
        proof {
            assert(all.skip(i as int).skip(1) =~= all.skip(i as int + 1));
        }
        i += 1;
    }
    proof {
        assert(all.skip(i as int) =~= Seq::<(Seq<char>, Seq<char>)>::empty());
    }
    None
}

/// A `Vec<usize>` of indices as mathematical integers.
pub open spec fn spec_idxs_of(v: Seq<usize>) -> Seq<int> {
    Seq::new(v.len(), |i: int| v[i] as int)
}

/// Indices of statements whose property is `prop` and which the rank filter
/// admits: all ranks, or preferred only.
pub open spec fn spec_claim_idxs(
    stmts: Seq<StatementView>,
    prop: Seq<char>,
    preferred_only: bool,
    from: int,
) -> Seq<int>
    decreases stmts.len() - from,
{
    if from < 0 || from >= stmts.len() {
        Seq::empty()
    } else if stmts[from].property == prop && (!preferred_only || stmts[from].rank
        == StatementRank::Preferred) {
        seq![from] + spec_claim_idxs(stmts, prop, preferred_only, from + 1)
    } else {
        spec_claim_idxs(stmts, prop, preferred_only, from + 1)
    }
}

/// Whether some statement for `prop` has preferred rank.
pub open spec fn spec_has_preferred(stmts: Seq<StatementView>, prop: Seq<char>) -> bool {
    spec_claim_idxs(stmts, prop, true, 0).len() > 0
}

/// Which statement indices a reader of `prop` uses: when preferred
/// statements are to be preferred and at least one exists, only those;
/// otherwise every rank.
pub open spec fn spec_filtered_claim_idxs(
    stmts: Seq<StatementView>,
    prop: Seq<char>,
    prefer_preferred: bool,
) -> Seq<int> {
    if prefer_preferred && spec_has_preferred(stmts, prop) {
        spec_claim_idxs(stmts, prop, true, 0)
    } else {
        spec_claim_idxs(stmts, prop, false, 0)
    }
}

impl Entity {
    /// The label in the given locale, if any.
    pub fn label_in_locale(&self, language: &str) -> (r: Option<&String>)
        ensures
            match r {
                Some(x) => spec_pair_lookup(self.deep_view().labels, language@) == Some(x@),
                None => spec_pair_lookup(self.deep_view().labels, language@) is None,
            },
    {
        pair_lookup(&self.labels, language)
    }

    /// The linked page title on the given wiki, if any.
    pub fn sitelink_title(&self, site: &str) -> (r: Option<&String>)
        ensures
            match r {
                Some(x) => spec_pair_lookup(self.deep_view().sitelinks, site@) == Some(x@),
                None => spec_pair_lookup(self.deep_view().sitelinks, site@) is None,
            },
    {
        pair_lookup(&self.sitelinks, site)
    }

    fn claim_idxs(&self, prop: &str, preferred_only: bool) -> (r: Vec<usize>)
        ensures
            spec_idxs_of(r@) =~= spec_claim_idxs(
                self.deep_view().statements,
                prop@,
                preferred_only,
                0,
            ),
    {
        let ghost stmts = self.deep_view().statements;
        let n = self.statements.len();
        let mut out: Vec<usize> = Vec::new();
        let mut i: usize = 0;
        while i < n
            invariant
                n == self.statements@.len(),
                stmts == self.deep_view().statements,
                stmts.len() == n,
                0 <= i <= n,
                spec_idxs_of(out@) + spec_claim_idxs(stmts, prop@, preferred_only, i as int)
                    =~= spec_claim_idxs(stmts, prop@, preferred_only, 0),
            decreases n - i,
        {
            let st = &self.statements[i];
            proof {
                assert(stmts[i as int] == st.deep_view());
            }
            let rank_ok = !preferred_only || match st.rank {
                StatementRank::Preferred => true,
                _ => false,
            };
            if rank_ok && crate::text::str_eq(st.property.as_str(), prop) {
                let ghost old_out = spec_idxs_of(out@);
                out.push(i);
                proof {
                    assert(spec_idxs_of(out@) =~= old_out + seq![i as int]);
                    assert(old_out + (seq![i as int] + spec_claim_idxs(
                        stmts,
                        prop@,
                        preferred_only,
                        i as int + 1,
                    )) =~= spec_idxs_of(out@) + spec_claim_idxs(
                        stmts,
                        prop@,
                        preferred_only,
                        i as int + 1,
                    ));
                }
            }
            i += 1;
        }
        proof {
            assert(spec_claim_idxs(stmts, prop@, preferred_only, n as int)
                =~= Seq::<int>::empty());
            assert(spec_idxs_of(out@) + Seq::<int>::empty() =~= spec_idxs_of(out@));
        }
        out
    }

    /// The statement indices a reader of `prop` uses, applying the
    /// preferred-rank filter.
    pub fn filtered_claim_indices(&self, prop: &str, prefer_preferred: bool) -> (r: Vec<usize>)
        ensures
            spec_idxs_of(r@) =~= spec_filtered_claim_idxs(
                self.deep_view().statements,
                prop@,
                prefer_preferred,
            ),
            forall|k: int| 0 <= k < r@.len() ==> 0 <= #[trigger] r@[k] < self.statements@.len(),
    {
        let preferred = self.claim_idxs(prop, true);
        let r = if prefer_preferred && preferred.len() > 0 {
            preferred
        } else {
            self.claim_idxs(prop, false)
        };
        proof {
            lemma_claim_idxs_bounds(self.deep_view().statements, prop@, true, 0);
            lemma_claim_idxs_bounds(self.deep_view().statements, prop@, false, 0);
            assert forall|k: int| 0 <= k < r@.len() implies 0 <= #[trigger] r@[k]
                < self.statements@.len() by {
                assert(spec_idxs_of(r@)[k] == r@[k] as int);
            }
        }
        r
    }
}

/// Every index the claim scan yields lies within the statement list.
pub proof fn lemma_claim_idxs_bounds(
    stmts: Seq<StatementView>,
    prop: Seq<char>,
    preferred_only: bool,
    from: int,
)
    ensures
        forall|k: int|
            0 <= k < spec_claim_idxs(stmts, prop, preferred_only, from).len()
                ==> from <= #[trigger] spec_claim_idxs(stmts, prop, preferred_only, from)[k]
                < stmts.len(),
    decreases stmts.len() - from,
{
    if !(from < 0 || from >= stmts.len()) {
        lemma_claim_idxs_bounds(stmts, prop, preferred_only, from + 1);
        let rec = spec_claim_idxs(stmts, prop, preferred_only, from + 1);
        let cur = spec_claim_idxs(stmts, prop, preferred_only, from);
        assert forall|k: int| 0 <= k < cur.len() implies from <= #[trigger] cur[k]
            < stmts.len() by {
            if stmts[from].property == prop && (!preferred_only || stmts[from].rank
                == StatementRank::Preferred) {
                if k > 0 {
                    assert(cur[k] == rec[k - 1]);
                }
            } else {
                assert(cur[k] == rec[k]);
            }
        }
    }
}

} // verus!
