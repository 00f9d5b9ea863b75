//! Parsing a query engine's tabular JSON response into typed row values.
//! The first declared output variable names the subject; every binding of
//! every row is classified by its shape into a `SparqlValue`, and a value
//! that cannot be classified aborts the parse.

use crate::jsonlite::{spec_json_member, JsonLite, JsonView};
use crate::text::{spec_find_from, spec_starts_with, find_from, starts_with_str, str_eq};
use vstd::prelude::*;

verus! {

/// One typed value bound to one query variable in one result row.
#[derive(Debug, Clone)]
pub enum SparqlValue {
    /// A knowledge-base entity, by its short id.
    Entity(String),
    /// A plain literal, with its language tag when one was given.
    Literal(String, Option<String>),
    /// A URI that does not reference an entity.
    Uri(String),
    /// A timestamp literal.
    Time(String),
    /// A coordinate literal: latitude and longitude as decimal text.
    Coordinate(String, String),
    /// A numeric literal.
    Quantity(String),
}

/// The mathematical shape of a `SparqlValue`.
pub enum SparqlValueView {
    Entity(Seq<char>),
    Literal(Seq<char>, Option<Seq<char>>),
    Uri(Seq<char>),
    Time(Seq<char>),
    Coordinate(Seq<char>, Seq<char>),
    Quantity(Seq<char>),
}

impl DeepView for SparqlValue {
    type V = SparqlValueView;

    open spec fn deep_view(&self) -> SparqlValueView {
        match self {
            SparqlValue::Entity(s) => SparqlValueView::Entity(s@),
            SparqlValue::Literal(s, l) => SparqlValueView::Literal(
                s@,
                match l {
                    Some(x) => Some(x@),
                    None => None,
                },
            ),
            SparqlValue::Uri(s) => SparqlValueView::Uri(s@),
            SparqlValue::Time(s) => SparqlValueView::Time(s@),
            SparqlValue::Coordinate(lat, lon) => SparqlValueView::Coordinate(lat@, lon@),
            SparqlValue::Quantity(s) => SparqlValueView::Quantity(s@),
        }
    }
}

/// A `Point(<lon> <lat>)` literal split into latitude and longitude.
pub open spec fn spec_parse_point(value: Seq<char>) -> Option<SparqlValueView> {
    if spec_starts_with(value, "Point("@) && value.len() >= 8 && value.last() == ')' {
        let inner = value.subrange(6, value.len() - 1);
        match spec_find_from(inner, 0, ' ') {
            Some(i) => Some(
                SparqlValueView::Coordinate(
                    inner.skip(i + 1),
                    inner.subrange(0, i),
                ),
            ),
            None => None,
        }
    } else {
        None
    }
}

/// How one bound value is classified, by its `type`, `value`, `xml:lang`
/// and `datatype` members.
pub open spec fn spec_sparql_value(v: JsonView) -> Option<SparqlValueView> {
    match (spec_json_member(v, "type"@), spec_json_member(v, "value"@)) {
        (JsonView::Str(ty), JsonView::Str(value)) => {
            if ty == "uri"@ {
                if spec_starts_with(value, "http://www.wikidata.org/entity/"@) {
                    Some(SparqlValueView::Entity(value.skip("http://www.wikidata.org/entity/"@.len() as int)))
                } else if spec_starts_with(value, "https://www.wikidata.org/entity/"@) {
                    Some(SparqlValueView::Entity(value.skip("https://www.wikidata.org/entity/"@.len() as int)))
                } else {
                    Some(SparqlValueView::Uri(value))
                }
            } else if ty == "literal"@ {
                match spec_json_member(v, "xml:lang"@) {
                    JsonView::Str(lang) => Some(SparqlValueView::Literal(value, Some(lang))),
                    _ => {
                        match spec_json_member(v, "datatype"@) {
                            JsonView::Str(dt) => {
                                if dt == "http://www.w3.org/2001/XMLSchema#dateTime"@ {
                                    Some(SparqlValueView::Time(value))
                                } else if dt == "http://www.opengis.net/ont/geosparql#wktLiteral"@ {
                                    spec_parse_point(value)
                                } else if dt == "http://www.w3.org/2001/XMLSchema#decimal"@ {
                                    Some(SparqlValueView::Quantity(value))
                                } else {
                                    Some(SparqlValueView::Literal(value, None))
                                }
                            },
                            _ => Some(SparqlValueView::Literal(value, None)),
                        }
                    },
                }
            } else {
                None
            }
        },
        _ => None,
    }
}

fn parse_point(value: &str) -> (r: Option<SparqlValue>)
    ensures
        match r {
            Some(x) => spec_parse_point(value@) == Some(x.deep_view()),
            None => spec_parse_point(value@) is None,
        },
{
    let len = value.unicode_len();
    if !starts_with_str(value, "Point(") {
        return None;
    }
    proof {
        reveal_strlit("Point(");
    }
    if len < 8 || value.get_char(len - 1) != ')' {
        return None;
    }
    let inner = value.substring_char(6, len - 1);
    proof {
        assert(inner@ =~= value@.subrange(6, value@.len() - 1));
    }
    match find_from(inner, 0, ' ') {
        Some(i) => {
            proof {
                crate::text::lemma_find_from_bounds(inner@, 0, ' ');
            }
            let ilen = inner.unicode_len();
            let lon = inner.substring_char(0, i);
            let lat = inner.substring_char(i + 1, ilen);
            proof {
                assert(lat@ =~= inner@.skip(i + 1));
            }
            Some(SparqlValue::Coordinate(lat.to_owned(), lon.to_owned()))
        },
        None => None,
    }
}

impl SparqlValue {
    /// Classify one bound value of a result row; `None` when its shape is
    /// none of the known ones.
    pub fn new_from_json(v: &JsonLite) -> (r: Option<SparqlValue>)
        ensures
            match r {
                Some(x) => spec_sparql_value(v.deep_view()) == Some(x.deep_view()),
                None => spec_sparql_value(v.deep_view()) is None,
            },
    {
        let ty = match v.member("type") {
            Some(JsonLite::Str(t)) => t,
            _ => {
                return None;
            },
        };
        let value = match v.member("value") {
            Some(JsonLite::Str(s)) => s,
            _ => {
                return None;
            },
        };
        if str_eq(ty.as_str(), "uri") {
            let len = value.as_str().unicode_len();
            if starts_with_str(value.as_str(), "http://www.wikidata.org/entity/") {
                proof {
                    reveal_strlit("http://www.wikidata.org/entity/");
                }
                let id = value.as_str().substring_char(31, len);
                proof {
                    assert(id@ =~= value@.skip(31));
                }
                return Some(SparqlValue::Entity(id.to_owned()));
            }
            if starts_with_str(value.as_str(), "https://www.wikidata.org/entity/") {
                proof {
                    reveal_strlit("https://www.wikidata.org/entity/");
                }
                let id = value.as_str().substring_char(32, len);
                proof {
                    assert(id@ =~= value@.skip(32));
                }
                return Some(SparqlValue::Entity(id.to_owned()));
            }
            return Some(SparqlValue::Uri(value.clone()));
        }
        if !str_eq(ty.as_str(), "literal") {
            return None;
        }
        if let Some(JsonLite::Str(lang)) = v.member("xml:lang") {
            return Some(SparqlValue::Literal(value.clone(), Some(lang.clone())));
        }
        match v.member("datatype") {
            Some(JsonLite::Str(dt)) => {
                if str_eq(dt.as_str(), "http://www.w3.org/2001/XMLSchema#dateTime") {
                    Some(SparqlValue::Time(value.clone()))
                } else if str_eq(dt.as_str(), "http://www.opengis.net/ont/geosparql#wktLiteral") {
                    parse_point(value.as_str())
                } else if str_eq(dt.as_str(), "http://www.w3.org/2001/XMLSchema#decimal") {
                    Some(SparqlValue::Quantity(value.clone()))
                } else {
                    Some(SparqlValue::Literal(value.clone(), None))
                }
            },
            _ => Some(SparqlValue::Literal(value.clone(), None)),
        }
    }
}

/// One result row: the values bound to the row's variables, in binding
/// order. Lookups return the first value under a name.
#[derive(Debug, Clone)]
pub struct SparqlRow {
    pub pairs: Vec<(String, SparqlValue)>,
}

/// The mathematical shape of a row.
pub type SparqlRowView = Seq<(Seq<char>, SparqlValueView)>;

pub open spec fn spec_row_pairs_view(s: Seq<(String, SparqlValue)>) -> SparqlRowView {
    Seq::new(s.len(), |i: int| (s[i].0@, s[i].1.deep_view()))
}

impl DeepView for SparqlRow {
    type V = SparqlRowView;

    open spec fn deep_view(&self) -> SparqlRowView {
        spec_row_pairs_view(self.pairs@)
    }
}

/// The first value bound under `var`, if any.
pub open spec fn spec_row_get(row: SparqlRowView, var: Seq<char>) -> Option<SparqlValueView>
    decreases row.len(),
{
    if row.len() == 0 {
        None
    } else if row[0].0 == var {
        Some(row[0].1)
    } else {
        spec_row_get(row.skip(1), var)
    }
}

impl SparqlRow {
    pub fn get(&self, var: &str) -> (r: Option<&SparqlValue>)
        ensures
            match r {
                Some(x) => spec_row_get(self.deep_view(), var@) == Some(x.deep_view()),
                None => spec_row_get(self.deep_view(), var@) is None,
            },
    {
        let n = self.pairs.len();
        let mut i: usize = 0;
        proof {
            assert(self.deep_view().skip(0) =~= self.deep_view());
        }
        while i < n
            invariant
                n == self.pairs@.len(),
                0 <= i <= n,
                spec_row_get(self.deep_view().skip(i as int), var@) == spec_row_get(
                    self.deep_view(),
                    var@,
                ),
            decreases n - i,
        {
            let pair = &self.pairs[i];
            proof {
                assert(self.deep_view().skip(i as int)[0] == self.deep_view()[i as int]);
            }
            if str_eq(pair.0.as_str(), var) {
                return Some(&pair.1);
            }
            proof {
                assert(self.deep_view().skip(i as int).skip(1) =~= self.deep_view().skip(
                    i as int + 1,
                ));
            }
            i += 1;
        }
        proof {
            assert(self.deep_view().skip(i as int) =~= Seq::<(Seq<char>, SparqlValueView)>::empty());
        }
        None
    }
}

/// Why a response document was rejected.
pub enum SparqlParseErr {
    /// `head.vars` is missing, not an array, or empty.
    BadHeadVars,
    /// The first declared variable is not a string.
    BadFirstVariable,
    /// `results.bindings` is missing or not an array.
    BrokenBindings,
    /// A bound value could not be classified; carries the variable's name.
    BadValue(Seq<char>),
}

/// The first declared output variable of a response document.
pub open spec fn spec_first_var(j: JsonView) -> Result<Seq<char>, SparqlParseErr> {
    match spec_json_member(spec_json_member(j, "head"@), "vars"@) {
        JsonView::Arr(a) => {
            if a.len() == 0 {
                Err(SparqlParseErr::BadHeadVars)
            } else {
                match a[0] {
                    JsonView::Str(v) => Ok(v),
                    _ => Err(SparqlParseErr::BadFirstVariable),
                }
            }
        },
        _ => Err(SparqlParseErr::BadHeadVars),
    }
}

/// One binding object parsed into a row, classifying every member.
pub open spec fn spec_parse_pairs(pairs: Seq<(Seq<char>, JsonView)>) -> Result<
    SparqlRowView,
    SparqlParseErr,
>
    decreases pairs.len(),
{
    if pairs.len() == 0 {
        Ok(Seq::empty())
    } else {
        match spec_sparql_value(pairs[0].1) {
            None => Err(SparqlParseErr::BadValue(pairs[0].0)),
            Some(v) => {
                match spec_parse_pairs(pairs.skip(1)) {
                    Ok(rest) => Ok(seq![(pairs[0].0, v)] + rest),
                    Err(e) => Err(e),
                }
            },
        }
    }
}

pub open spec fn spec_parse_binding(b: JsonView) -> Result<SparqlRowView, SparqlParseErr> {
    match b {
        JsonView::Obj(pairs) => spec_parse_pairs(pairs),
        _ => Err(SparqlParseErr::BrokenBindings),
    }
}

/// All bindings parsed in order; a row with no parsed variables is dropped.
pub open spec fn spec_parse_bindings(bs: Seq<JsonView>) -> Result<
    Seq<SparqlRowView>,
    SparqlParseErr,
>
    decreases bs.len(),
{
    if bs.len() == 0 {
        Ok(Seq::empty())
    } else {
        match spec_parse_binding(bs[0]) {
            Err(e) => Err(e),
            Ok(row) => {
                match spec_parse_bindings(bs.skip(1)) {
                    Err(e) => Err(e),
                    Ok(rest) => {
                        if row.len() == 0 {
                            Ok(rest)
                        } else {
                            Ok(seq![row] + rest)
                        }
                    },
                }
            },
        }
    }
}

/// What parsing a whole response document yields: the first declared
/// variable and the parsed rows.
pub open spec fn spec_parse_sparql(j: JsonView) -> Result<
    (Seq<char>, Seq<SparqlRowView>),
    SparqlParseErr,
> {
    match spec_first_var(j) {
        Err(e) => Err(e),
        Ok(var) => {
            match spec_json_member(spec_json_member(j, "results"@), "bindings"@) {
                JsonView::Arr(bs) => {
                    match spec_parse_bindings(bs) {
                        Err(e) => Err(e),
                        Ok(rows) => Ok((var, rows)),
                    }
                },
                _ => Err(SparqlParseErr::BrokenBindings),
            }
        },
    }
}

/// The message each rejection carries.
pub open spec fn spec_parse_err_msg(e: SparqlParseErr) -> Seq<char> {
    match e {
        SparqlParseErr::BadHeadVars => "Bad SPARQL head.vars"@,
        SparqlParseErr::BadFirstVariable => "Can't parse first variable"@,
        SparqlParseErr::BrokenBindings => "Broken SPARQL results.bindings"@,
        SparqlParseErr::BadValue(k) => "Can't parse SPARQL value: "@ + k,
    }
}

fn parse_binding(b: &JsonLite) -> (r: Result<SparqlRow, String>)
    ensures
        match r {
            Ok(row) => spec_parse_binding(b.deep_view()) == Ok::<SparqlRowView, SparqlParseErr>(
                row.deep_view(),
            ),
            Err(msg) => spec_parse_binding(b.deep_view()) matches Err(e) && msg@
                == spec_parse_err_msg(e),
        },
{
    match b {
        JsonLite::Obj(pairs) => {
            let ghost all = crate::jsonlite::spec_json_pair_views(pairs@);
            proof {
                crate::jsonlite::lemma_json_pair_views_index(pairs@);
            }
            let n = pairs.len();
            let mut out: Vec<(String, SparqlValue)> = Vec::new();
            let mut i: usize = 0;
            proof {
                assert(all.skip(0) =~= all);
            }
            while i < n
                invariant
                    n == pairs@.len(),
                    0 <= i <= n,
                    all == crate::jsonlite::spec_json_pair_views(pairs@),
                    all.len() == n,
                    forall|k: int| 0 <= k < n ==> all[k] == (
                        pairs@[k].0@,
                        crate::jsonlite::spec_json_view(pairs@[k].1),
                    ),
                    spec_parse_binding(b.deep_view()) == (match spec_parse_pairs(
                        all.skip(i as int),
                    ) {
                        Ok(rest) => Ok::<SparqlRowView, SparqlParseErr>(
                            spec_row_pairs_view(out@) + rest,
                        ),
                        Err(e) => Err::<SparqlRowView, SparqlParseErr>(e),
                    }),
                decreases n - i,
            {
                let pair = &pairs[i];
                proof {
                    assert(all.skip(i as int)[0] == all[i as int]);
                }
                match SparqlValue::new_from_json(&pair.1) {
                    Some(v) => {
                        proof {
                            assert(all.skip(i as int).skip(1) =~= all.skip(i as int + 1));
                        }
                        let ghost old_out = out@;
                        out.push((pair.0.clone(), v));
                        proof {
                            assert(spec_row_pairs_view(out@) =~= spec_row_pairs_view(old_out)
                                + seq![(pairs@[i as int].0@, spec_sparql_value(all[i as int].1)->Some_0)]) by {
                                assert(out@.len() == old_out.len() + 1);
                            }
                            if spec_parse_pairs(all.skip(i as int + 1)) is Ok {
                                let rest = spec_parse_pairs(all.skip(i as int + 1))->Ok_0;
                                assert(spec_row_pairs_view(old_out) + (seq![
                                    (all[i as int].0, spec_sparql_value(all[i as int].1)->Some_0),
                                ] + rest) =~= spec_row_pairs_view(out@) + rest);
                            }
                        }
                        i += 1;
                    },
                    None => {
                        let mut msg = String::from_str("Can't parse SPARQL value: ");
                        msg.append(pair.0.as_str());
                        proof {
                            assert(msg@ == "Can't parse SPARQL value: "@ + pairs@[i as int].0@);
                        }
                        return Err(msg);
                    },
                }
            }
            proof {
                assert(all.skip(i as int) =~= Seq::<(Seq<char>, JsonView)>::empty());
                assert(spec_row_pairs_view(out@) + Seq::<(Seq<char>, SparqlValueView)>::empty()
                    =~= spec_row_pairs_view(out@));
            }
            Ok(SparqlRow { pairs: out })
        },
        _ => {
            proof {
                assert(spec_parse_binding(b.deep_view()) == Err::<SparqlRowView, SparqlParseErr>(
                    SparqlParseErr::BrokenBindings,
                ));
            }
            Err(String::from_str("Broken SPARQL results.bindings"))
        },
    }
}

/// Parse a whole response document: the first declared output variable and
/// the ordered rows, each binding classified; any unclassifiable value or a
/// malformed frame is a hard error.
#[verifier::loop_isolation(false)]
pub fn parse_sparql_document(j: &JsonLite) -> (r: Result<(String, Vec<SparqlRow>), String>)
    ensures
        match r {
            Ok(p) => spec_parse_sparql(j.deep_view()) == Ok::<
                (Seq<char>, Seq<SparqlRowView>),
                SparqlParseErr,
            >((p.0@, p.1.deep_view())),
            Err(msg) => spec_parse_sparql(j.deep_view()) matches Err(e) && msg@
                == spec_parse_err_msg(e),
        },
{
    let head = match j.member("head") {
        Some(h) => h,
        None => {
            return Err(String::from_str("Bad SPARQL head.vars"));
        },
    };
    let vars = match head.member("vars") {
        Some(v) => v,
        None => {
            return Err(String::from_str("Bad SPARQL head.vars"));
        },
    };
    let first_var: String = match vars {
        JsonLite::Arr(a) => {
            proof {
                crate::jsonlite::lemma_json_views_index(a@);
            }
            if a.len() == 0 {
                return Err(String::from_str("Bad SPARQL head.vars"));
            }
            match &a[0] {
                JsonLite::Str(v) => v.clone(),
                _ => {
                    return Err(String::from_str("Can't parse first variable"));
                },
            }
        },
        _ => {
            return Err(String::from_str("Bad SPARQL head.vars"));
        },
    };
    proof {
        assert(spec_first_var(j.deep_view()) == Ok::<Seq<char>, SparqlParseErr>(first_var@));
    }
    let results = match j.member("results") {
        Some(x) => x,
        None => {
            return Err(String::from_str("Broken SPARQL results.bindings"));
        },
    };
    let bindings = match results.member("bindings") {
        Some(x) => x,
        None => {
            return Err(String::from_str("Broken SPARQL results.bindings"));
        },
    };
    match bindings {
        JsonLite::Arr(bs) => {
            let ghost bviews = crate::jsonlite::spec_json_views(bs@);
            proof {
                crate::jsonlite::lemma_json_views_index(bs@);
                assert(bviews.skip(0) =~= bviews);
                assert(bindings.deep_view() == JsonView::Arr(bviews));
            }
            let n = bs.len();
            let mut rows: Vec<SparqlRow> = Vec::new();
            let mut i: usize = 0;
            while i < n
                invariant
                    n == bs@.len(),
                    0 <= i <= n,
                    bviews == crate::jsonlite::spec_json_views(bs@),
                    bviews.len() == n,
                    forall|k: int| 0 <= k < n ==> bviews[k] == crate::jsonlite::spec_json_view(
                        bs@[k],
                    ),
                    spec_parse_bindings(bviews) == (match spec_parse_bindings(
                        bviews.skip(i as int),
                    ) {
                        Ok(rest) => Ok::<Seq<SparqlRowView>, SparqlParseErr>(
                            rows.deep_view() + rest,
                        ),
                        Err(e) => Err::<Seq<SparqlRowView>, SparqlParseErr>(e),
                    }),
                decreases n - i,
            {
                proof {
                    assert(bviews.skip(i as int)[0] == bviews[i as int]);
                    assert(bviews.skip(i as int).skip(1) =~= bviews.skip(i as int + 1));
                }
                match parse_binding(&bs[i]) {
                    Err(msg) => {
                        proof {
                            let t = bviews.skip(i as int);
                            let e = spec_parse_binding(bviews[i as int])->Err_0;
                            assert(spec_parse_bindings(t) == Err::<
                                Seq<SparqlRowView>,
                                SparqlParseErr,
                            >(e));
                            assert(spec_parse_bindings(bviews) == Err::<
                                Seq<SparqlRowView>,
                                SparqlParseErr,
                            >(e));
                            assert(bindings.deep_view() == JsonView::Arr(bviews));
                            assert(spec_json_member(
                                spec_json_member(j.deep_view(), "results"@),
                                "bindings"@,
                            ) == JsonView::Arr(bviews));
                            assert(spec_parse_sparql(j.deep_view()) == Err::<
                                (Seq<char>, Seq<SparqlRowView>),
                                SparqlParseErr,
                            >(e));
                        }
                        return Err(msg);
                    },
                    Ok(row) => {
                        if row.pairs.len() > 0 {
                            let ghost old_rows = rows.deep_view();
                            let ghost rowv = row.deep_view();
                            rows.push(row);
                            proof {
                                assert(rows.deep_view() =~= old_rows + seq![rowv]);
                                if spec_parse_bindings(bviews.skip(i as int + 1)) is Ok {
                                    let rest = spec_parse_bindings(
                                        bviews.skip(i as int + 1),
                                    )->Ok_0;
                                    assert(old_rows + (seq![rowv] + rest) =~= rows.deep_view()
                                        + rest);
                                }
                            }
                        } else {
                            proof {
                                assert(row.deep_view().len() == 0);
                            }
                        }
                        i += 1;
                    },
                }
            }
            proof {
                assert(bviews.skip(i as int) =~= Seq::<JsonView>::empty());
                assert(rows.deep_view() + Seq::<SparqlRowView>::empty() =~= rows.deep_view());
            }
            Ok((first_var, rows))
        },
        _ => Err(String::from_str("Broken SPARQL results.bindings")),
    }
}

} // verus!
