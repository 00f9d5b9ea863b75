//! The pipeline: parse the template's configuration, parse the query
//! response, plan the entity load, build one row per subject (or per result
//! row), and post-process: localize entity links, filter by link mode,
//! strip shadowed files, sort, assign sections, and enrich locations with
//! regions. Network work (the query, entity fetches, wiki probes) is done
//! by the embedding program between stages; every decision about the data
//! is made and verified here.

use crate::cache::{spec_cached, EntityContainerWrapper};
use crate::column::{Column, ColumnType, ColumnTypeView, spec_column_type};
use crate::entity::{
    spec_filtered_claim_idxs, spec_pair_lookup, Entity, SnakDataType, SnakValue, SnakValueView,
    StatementView,
};
use crate::jsonlite::JsonLite;
use crate::params::{
    LinksType, PageParams, SectionType, SortMode, SortOrder, Template, TemplateParams,
};
use crate::row::{
    reverse_rows, sort_rows, spec_part_view, spec_part_views, spec_rows_views, spec_stable_sort,
    PartView, ResultCell, ResultCellPart, ResultRow, RowView,
};
use crate::sparql::{spec_row_get, SparqlRow, SparqlValue, SparqlValueView};
use crate::text::{
    spec_replace_all, spec_split, spec_trim, replace_all, split_str, str_eq, spec_parse_u64,
    parse_u64, trim_str,
};
use crate::trusted::{lower_of, lowercase, upper_of, uppercase, url_decoded, url_decode};
use vstd::prelude::*;

verus! {

/// The part one query value renders to: entity references stay
/// localizable, coordinates become locations, everything else text.
pub open spec fn spec_part_from_sparql(v: SparqlValueView) -> PartView {
    match v {
        SparqlValueView::Entity(id) => PartView::Entity(id, true),
        SparqlValueView::Literal(t, _lang) => PartView::Text(t),
        SparqlValueView::Uri(u) => PartView::Text(u),
        SparqlValueView::Time(t) => PartView::Text(t),
        SparqlValueView::Coordinate(lat, lon) => PartView::Location(lat, lon, None),
        SparqlValueView::Quantity(q) => PartView::Text(q),
    }
}

pub fn part_from_sparql(v: &SparqlValue) -> (r: ResultCellPart)
    ensures
        r.deep_view() == spec_part_from_sparql(v.deep_view()),
{
    match v {
        SparqlValue::Entity(id) => ResultCellPart::Entity(id.clone(), true),
        SparqlValue::Literal(t, _lang) => ResultCellPart::Text(t.clone()),
        SparqlValue::Uri(u) => ResultCellPart::Text(u.clone()),
        SparqlValue::Time(t) => ResultCellPart::Text(t.clone()),
        SparqlValue::Coordinate(lat, lon) => ResultCellPart::Location(
            lat.clone(),
            lon.clone(),
            None,
        ),
        SparqlValue::Quantity(q) => ResultCellPart::Text(q.clone()),
    }
}

/// The part one statement or qualifier value renders to, given the snak's
/// property and declared datatype.
pub open spec fn spec_part_from_snak(
    prop: Seq<char>,
    dt: SnakDataType,
    v: SnakValueView,
) -> PartView {
    match v {
        SnakValueView::Entity(id) => PartView::Entity(id, true),
        SnakValueView::StringValue(s) => {
            if dt == SnakDataType::ExternalId {
                PartView::ExternalId(prop, s)
            } else if dt == SnakDataType::CommonsMedia {
                PartView::File(s)
            } else {
                PartView::Text(s)
            }
        },
        SnakValueView::Time(t) => PartView::Text(t),
        SnakValueView::Coordinate(lat, lon) => PartView::Location(lat, lon, None),
        SnakValueView::Quantity(q) => PartView::Text(q),
        SnakValueView::MonolingualText(_lang, t) => PartView::Text(t),
        SnakValueView::NoValue => PartView::Text(Seq::empty()),
    }
}

pub fn part_from_snak(prop: &str, dt: &SnakDataType, v: &SnakValue) -> (r: ResultCellPart)
    ensures
        r.deep_view() == spec_part_from_snak(prop@, *dt, v.deep_view()),
{
    match v {
        SnakValue::Entity(id) => ResultCellPart::Entity(id.clone(), true),
        SnakValue::StringValue(s) => {
            match dt {
                SnakDataType::ExternalId => ResultCellPart::ExternalId(
                    String::from_str(prop),
                    s.clone(),
                ),
                SnakDataType::CommonsMedia => ResultCellPart::File(s.clone()),
                _ => ResultCellPart::Text(s.clone()),
            }
        },
        SnakValue::Time(t) => ResultCellPart::Text(t.clone()),
        SnakValue::Coordinate(lat, lon) => ResultCellPart::Location(
            lat.clone(),
            lon.clone(),
            None,
        ),
        SnakValue::Quantity(q) => ResultCellPart::Text(q.clone()),
        SnakValue::MonolingualText(_lang, t) => ResultCellPart::Text(t.clone()),
        SnakValue::NoValue => {
            let r = ResultCellPart::Text(String::new());
            proof {
                assert(r.deep_view() == spec_part_from_snak(prop@, *dt, v.deep_view()));
            }
            r
        },
    }
}

/// The text a snak value sorts and sections under: entity values by their
/// id, text-like values by their text, coordinates by latitude and
/// longitude.
pub open spec fn spec_snak_sort_text(v: SnakValueView) -> Seq<char> {
    match v {
        SnakValueView::Entity(id) => id,
        SnakValueView::StringValue(s) => s,
        SnakValueView::Time(t) => t,
        SnakValueView::Coordinate(lat, lon) => lat + ","@ + lon,
        SnakValueView::Quantity(q) => q,
        SnakValueView::MonolingualText(_lang, t) => t,
        SnakValueView::NoValue => Seq::empty(),
    }
}

fn snak_sort_text(v: &SnakValue) -> (r: String)
    ensures
        r@ == spec_snak_sort_text(v.deep_view()),
{
    match v {
        SnakValue::Entity(id) => id.clone(),
        SnakValue::StringValue(s) => s.clone(),
        SnakValue::Time(t) => t.clone(),
        SnakValue::Coordinate(lat, lon) => {
            let mut r = lat.clone();
            r.append(",");
            r.append(lon.as_str());
            r
        },
        SnakValue::Quantity(q) => q.clone(),
        SnakValue::MonolingualText(_lang, t) => t.clone(),
        SnakValue::NoValue => String::new(),
    }
}

/// The list under construction for one page.
pub struct ListeriaList {
    pub page_params: PageParams,
    pub template: Template,
    pub columns: Vec<Column>,
    pub params: TemplateParams,
    pub sparql_rows: Vec<SparqlRow>,
    pub sparql_first_variable: Option<String>,
    pub entities: EntityContainerWrapper,
    pub results: Vec<ResultRow>,
    pub shadow_files: Vec<String>,
    pub local_page_cache: Vec<(String, bool)>,
    pub section_names: Vec<String>,
}

impl ListeriaList {
    pub fn new(template: Template, page_params: PageParams) -> (r: ListeriaList)
        ensures
            r.template == template,
            r.page_params == page_params,
            r.columns@.len() == 0,
            r.sparql_rows@.len() == 0,
            r.results@.len() == 0,
            r.shadow_files@.len() == 0,
            r.local_page_cache@.len() == 0,
            r.section_names@.len() == 0,
            r.entities.entities@.len() == 0,
            r.entities.disk is None,
    {
        ListeriaList {
            page_params,
            template,
            columns: Vec::new(),
            params: TemplateParams::new(),
            sparql_rows: Vec::new(),
            sparql_first_variable: None,
            entities: EntityContainerWrapper::new(),
            results: Vec::new(),
            shadow_files: Vec::new(),
            local_page_cache: Vec::new(),
            section_names: Vec::new(),
        }
    }

    /// Parse the template into columns and typed parameters, take the
    /// template's language over the page's, and check that the named
    /// wikibase setup is configured. The parsed state is installed whether
    /// or not that check passes, as the error comes last.
    pub fn process_template(&mut self) -> (r: Result<(), String>)
        ensures
            final(self).columns@.len() == (match spec_pair_lookup(
                crate::entity::spec_pairs_view(old(self).template.params@),
                "columns"@,
            ) {
                Some(v) => spec_split(v, ',').len() as int,
                None => 1int,
            }),
            forall|i: int|
                0 <= i < final(self).columns@.len() ==> {
                    &&& (#[trigger] final(self).columns@[i]).obj.deep_view()
                        == spec_column_type(spec_column_token(&old(self).template, i))
                    &&& final(self).columns@[i].label@ == spec_trim(
                        spec_column_token(&old(self).template, i),
                    )
                },
            final(self).page_params.language@ == (match spec_pair_lookup(
                crate::entity::spec_pairs_view(old(self).template.params@),
                "language"@,
            ) {
                Some(l) => lower_of(l),
                None => old(self).page_params.language@,
            }),
            final(self).page_params.wiki == old(self).page_params.wiki,
            final(self).page_params.page == old(self).page_params.page,
            final(self).page_params.config == old(self).page_params.config,
            final(self).page_params.simulate == old(self).page_params.simulate,
            final(self).page_params.simulated_sparql_results == old(
                self,
            ).page_params.simulated_sparql_results,
            final(self).page_params.local_file_namespace_prefix == old(
                self,
            ).page_params.local_file_namespace_prefix,
            final(self).params.links == (match spec_pair_lookup(
                crate::entity::spec_pairs_view(old(self).template.params@),
                "links"@,
            ) {
                Some(v) => crate::params::spec_links_type(v),
                None => LinksType::All,
            }),
            final(self).params.sort_order == (if (spec_pair_lookup(
                crate::entity::spec_pairs_view(old(self).template.params@),
                "sort_order"@,
            ) matches Some(v) && crate::text::spec_eq_ignore_ascii_case(
                spec_trim(v),
                "descending"@,
            )) {
                SortOrder::Descending
            } else {
                SortOrder::Ascending
            }),
            final(self).params.min_section == (match spec_pair_lookup(
                crate::entity::spec_pairs_view(old(self).template.params@),
                "min_section"@,
            ) {
                Some(v) => match spec_parse_u64(spec_trim(v)) {
                    Some(x) => x,
                    None => 2u64,
                },
                None => 2u64,
            }),
            final(self).params.one_row_per_item == (spec_pair_lookup(
                crate::entity::spec_pairs_view(old(self).template.params@),
                "one_row_per_item"@,
            ) matches Some(v) && crate::text::spec_eq_ignore_ascii_case(spec_trim(v), "yes"@)),
            final(self).params.skip_table == (spec_pair_lookup(
                crate::entity::spec_pairs_view(old(self).template.params@),
                "skip_table"@,
            ) is Some),
            final(self).params.wikibase@ == (match spec_pair_lookup(
                crate::entity::spec_pairs_view(old(self).template.params@),
                "wikibase"@,
            ) {
                Some(v) => spec_trim(v),
                None => "wikidata"@,
            }),
            final(self).template == old(self).template,
            final(self).sparql_rows == old(self).sparql_rows,
            final(self).sparql_first_variable == old(self).sparql_first_variable,
            final(self).entities == old(self).entities,
            final(self).results == old(self).results,
            final(self).shadow_files == old(self).shadow_files,
            final(self).local_page_cache == old(self).local_page_cache,
            final(self).section_names == old(self).section_names,
            (r is Err) == !(exists|i: int|
                0 <= i < old(self).page_params.config.wb_apis@.len()
                    && #[trigger] old(self).page_params.config.wb_apis@[i].0@
                    == spec_wikibase_key_of(&old(self).template)),
            r matches Err(e) ==> e@ == "No wikibase setup configured for '"@
                + spec_wikibase_key_of(&old(self).template) + "'"@,
    {
        let mut columns: Vec<Column> = Vec::new();
        match self.template.get("columns") {
            Some(cols) => {
                let parts = split_str(cols.as_str(), ',');
                let ghost pv = parts.deep_view();
                let n = parts.len();
                let mut i: usize = 0;
                while i < n
                    invariant
                        n == parts@.len(),
                        pv == parts.deep_view(),
                        pv.len() == n,
                        0 <= i <= n,
                        columns@.len() == i,
                        forall|k: int|
                            0 <= k < i ==> {
                                &&& (#[trigger] columns@[k]).obj.deep_view()
                                    == spec_column_type(pv[k])
                                &&& columns@[k].label@ == spec_trim(pv[k])
                            },
                    decreases n - i,
                {
                    proof {
                        assert(pv[i as int] == parts@[i as int]@);
                    }
                    columns.push(Column::new(parts[i].as_str()));
                    i += 1;
                }
            },
            None => {
                columns.push(Column::new("item"));
                proof {
                    reveal_strlit("item");
                }
            },
        }
        self.columns = columns;
        self.params = TemplateParams::new_from_params(&self.template);
        if let Some(l) = self.template.get("language") {
            let lowered = lowercase(l.clone().as_str());
            self.page_params.language = lowered;
        }
        if let Some(sv) = self.template.get("links") {
            self.params.links = LinksType::new_from_string(sv.clone().as_str());
        }
        let wikibase = lowercase(self.params.wikibase.clone().as_str());
        proof {
            assert(wikibase@ == spec_wikibase_key_of(&old(self).template));
        }
        match self.page_params.config.get_wbapi(wikibase.as_str()) {
            Some(_) => Ok(()),
            None => {
                let mut msg = String::from_str("No wikibase setup configured for '");
                msg.append(wikibase.as_str());
                msg.append("'");
                proof {
                    assert(msg@ =~= "No wikibase setup configured for '"@ + wikibase@ + "'"@);
                }
                Err(msg)
            },
        }
    }

    /// Parse a query response document: record the first declared output
    /// variable and the classified rows.
    pub fn parse_sparql(&mut self, j: &JsonLite) -> (r: Result<(), String>)
        ensures
            match r {
                Ok(_) => crate::sparql::spec_parse_sparql(j.deep_view()) matches Ok(p)
                    && final(self).sparql_first_variable matches Some(v) && v@ == p.0
                    && final(self).sparql_rows.deep_view() == p.1,
                Err(msg) => crate::sparql::spec_parse_sparql(j.deep_view()) matches Err(e)
                    && msg@ == crate::sparql::spec_parse_err_msg(e),
            },
    {
        self.sparql_rows = Vec::new();
        self.sparql_first_variable = None;
        match crate::sparql::parse_sparql_document(j) {
            Ok((first_var, rows)) => {
                self.sparql_first_variable = Some(first_var);
                self.sparql_rows = rows;
                Ok(())
            },
            Err(e) => Err(e),
        }
    }

    /// The first declared output variable; an error before a query ran.
    pub fn get_var_name(&self) -> (r: Result<&String, String>)
        ensures
            match r {
                Ok(v) => self.sparql_first_variable matches Some(x) && x == v,
                Err(e) => self.sparql_first_variable is None && e@
                    == "load_entities: sparql_first_variable is None"@,
            },
    {
        match &self.sparql_first_variable {
            Some(v) => Ok(v),
            None => Err(String::from_str("load_entities: sparql_first_variable is None")),
        }
    }

    /// Whether any configured column needs entity records at all.
    pub fn columns_need_entities(&self) -> (r: bool)
        ensures
            r == (exists|i: int|
                0 <= i < self.columns@.len() && !(#[trigger] self.columns@[i].obj is Number)
                    && !(self.columns@[i].obj is Item) && !(self.columns@[i].obj is Field)),
    {
        let n = self.columns.len();
        let mut i: usize = 0;
        while i < n
            invariant
                n == self.columns@.len(),
                0 <= i <= n,
                forall|k: int|
                    0 <= k < i ==> (#[trigger] self.columns@[k].obj is Number)
                        || self.columns@[k].obj is Item || self.columns@[k].obj is Field,
            decreases n - i,
        {
            let needs = match &self.columns[i].obj {
                ColumnType::Number => false,
                ColumnType::Item => false,
                ColumnType::Field(_) => false,
                _ => true,
            };
            if needs {
                return true;
            }
            i += 1;
        }
        false
    }

    /// The subject ids of the result rows, in first-appearance order with
    /// duplicates removed.
    pub fn subject_ids(&self, varname: &str) -> (r: Vec<String>)
        ensures
            forall|i: int, j: int|
                0 <= i < j < r@.len() ==> #[trigger] r@[i]@ != #[trigger] r@[j]@,
            spec_all_from_rows(self.sparql_rows@, varname@, r@),
            crate::configuration::spec_strs_view(r@) == spec_subjects(
                self.sparql_rows@,
                varname@,
            ),
            forall|k: int|
                0 <= k < self.sparql_rows@.len() ==> (match spec_row_get(
                    #[trigger] self.sparql_rows@[k].deep_view(),
                    varname@,
                ) {
                    Some(SparqlValueView::Entity(id)) => exists|i: int|
                        0 <= i < r@.len() && #[trigger] r@[i]@ == id,
                    _ => true,
                }),
    {
        let n = self.sparql_rows.len();
        let mut out: Vec<String> = Vec::new();
        let mut k: usize = 0;
        proof {
            assert(self.sparql_rows@.take(0) =~= Seq::<SparqlRow>::empty());
            assert(crate::configuration::spec_strs_view(out@) =~= spec_subjects(
                self.sparql_rows@.take(0),
                varname@,
            ));
        }
        while k < n
            invariant
                n == self.sparql_rows@.len(),
                0 <= k <= n,
                forall|i: int, j: int|
                    0 <= i < j < out@.len() ==> #[trigger] out@[i]@ != #[trigger] out@[j]@,
                spec_all_from_rows(self.sparql_rows@, varname@, out@),
                crate::configuration::spec_strs_view(out@) == spec_subjects(
                    self.sparql_rows@.take(k as int),
                    varname@,
                ),
                forall|m: int|
                    0 <= m < k ==> (match spec_row_get(
                        #[trigger] self.sparql_rows@[m].deep_view(),
                        varname@,
                    ) {
                        Some(SparqlValueView::Entity(id)) => exists|i: int|
                            0 <= i < out@.len() && #[trigger] out@[i]@ == id,
                        _ => true,
                    }),
            decreases n - k,
        {
            let ghost outb = out@;
            proof {
                assert(self.sparql_rows@.take(k as int + 1).drop_last() =~= self.sparql_rows@.take(
                    k as int,
                ));
                assert(self.sparql_rows@.take(k as int + 1).last() == self.sparql_rows@[
                    k as int
                ]);
            }
            let row = &self.sparql_rows[k];
            match row.get(varname) {
                Some(SparqlValue::Entity(id)) => {
                    proof {
                        let sv = crate::configuration::spec_strs_view(outb);
                        if sv.contains(id@) {
                            let i0 = choose|i: int| 0 <= i < sv.len() && sv[i] == id@;
                            assert(outb[i0]@ == id@);
                        }
                        if exists|i: int| 0 <= i < outb.len() && #[trigger] outb[i]@ == id@ {
                            let i0 = choose|i: int|
                                0 <= i < outb.len() && #[trigger] outb[i]@ == id@;
                            assert(sv[i0] == id@);
                            assert(sv.contains(id@));
                        }
                    }
                    if !vec_contains_str(&out, id.as_str()) {
                        out.push(id.clone());
                        proof {
                            assert(out@[out@.len() - 1]@ == id@);
                            assert(crate::configuration::spec_strs_view(out@)
                                =~= crate::configuration::spec_strs_view(outb).push(id@));
                            assert forall|i: int, j: int|
                                0 <= i < j < out@.len() implies #[trigger] out@[i]@
                                != #[trigger] out@[j]@ by {
                                if j < out@.len() - 1 {
                                    assert(out@[i] == outb[i] && out@[j] == outb[j]);
                                } else {
                                    assert(out@[i] == outb[i]);
                                }
                            }
                            assert(spec_all_from_rows(self.sparql_rows@, varname@, out@)) by {
                                assert forall|i: int|
                                    #![trigger out@[i]]
                                    0 <= i < out@.len() implies exists|m: int|
                                    0 <= m < self.sparql_rows@.len() && spec_row_get(
                                        #[trigger] self.sparql_rows@[m].deep_view(),
                                        varname@,
                                    ) == Some(SparqlValueView::Entity(out@[i]@)) by {
                                    if i < out@.len() - 1 {
                                        assert(out@[i] == outb[i]);
                                        assert(spec_all_from_rows(
                                            self.sparql_rows@,
                                            varname@,
                                            outb,
                                        ));
                                    } else {
                                        assert(spec_row_get(
                                            self.sparql_rows@[k as int].deep_view(),
                                            varname@,
                                        ) == Some(SparqlValueView::Entity(out@[i]@)));
                                    }
                                }
                            }
                        }
                    }
                    proof {
                        if !(exists|i: int|
                            0 <= i < out@.len() && #[trigger] out@[i]@ == id@) {
                            assert(false);
                        }
                    }
                },
                _ => {},
            }
            proof {
                assert forall|m: int|
                    0 <= m < k + 1 implies (match spec_row_get(
                    #[trigger] self.sparql_rows@[m].deep_view(),
                    varname@,
                ) {
                    Some(SparqlValueView::Entity(id)) => exists|i: int|
                        0 <= i < out@.len() && #[trigger] out@[i]@ == id,
                    _ => true,
                }) by {
                    if m < k {
                        match spec_row_get(self.sparql_rows@[m].deep_view(), varname@) {
                            Some(SparqlValueView::Entity(id)) => {
                                let i0 = choose|i: int|
                                    0 <= i < outb.len() && #[trigger] outb[i]@ == id;
                                assert(out@[i0]@ == id);
                            },
                            _ => {},
                        }
                    }
                }
            }
            k += 1;
        }
        proof {
            assert(self.sparql_rows@.take(n as int) =~= self.sparql_rows@);
        }
        out
    }

    /// The ids a load must cover: the subjects, then the property ids the
    /// column headers name.
    pub fn get_ids_from_sparql_rows(&self) -> (r: Result<Vec<String>, String>)
        ensures
            (r is Err) == (self.sparql_first_variable is None),
            r matches Ok(ids) ==> (self.sparql_first_variable matches Some(var)
                && crate::configuration::spec_strs_view(ids@) == spec_subjects(
                self.sparql_rows@,
                var@,
            ) + spec_column_prop_ids(self.columns@)),
    {
        let varname = match self.get_var_name() {
            Ok(v) => v.clone(),
            Err(e) => {
                return Err(e);
            },
        };
        let mut ids = self.subject_ids(varname.as_str());
        let n = self.columns.len();
        let mut i: usize = 0;
        let ghost base = crate::configuration::spec_strs_view(ids@);
        proof {
            assert(spec_column_prop_ids(self.columns@.take(0)) =~= Seq::<Seq<char>>::empty());
            assert(crate::configuration::spec_strs_view(ids@) =~= base + spec_column_prop_ids(
                self.columns@.take(0),
            ));
        }
        while i < n
            invariant
                n == self.columns@.len(),
                0 <= i <= n,
                crate::configuration::spec_strs_view(ids@) == base + spec_column_prop_ids(
                    self.columns@.take(i as int),
                ),
            decreases n - i,
        {
            proof {
                assert(self.columns@.take(i as int + 1).drop_last() =~= self.columns@.take(
                    i as int,
                ));
                assert(self.columns@.take(i as int + 1).last() == self.columns@[i as int]);
            }
            let ghost ib = ids@;
            match &self.columns[i].obj {
                ColumnType::Property(p) => {
                    ids.push(p.clone());
                    proof {
                        assert(crate::configuration::spec_strs_view(ids@)
                            =~= crate::configuration::spec_strs_view(ib).push(p@));
                    }
                },
                ColumnType::PropertyQualifier(p, q) => {
                    ids.push(p.clone());
                    ids.push(q.clone());
                    proof {
                        assert(crate::configuration::spec_strs_view(ids@)
                            =~= crate::configuration::spec_strs_view(ib).push(p@).push(q@));
                    }
                },
                ColumnType::PropertyQualifierValue(p, q, p2) => {
                    ids.push(p.clone());
                    ids.push(q.clone());
                    ids.push(p2.clone());
                    proof {
                        assert(crate::configuration::spec_strs_view(ids@)
                            =~= crate::configuration::spec_strs_view(ib).push(p@).push(
                            q@,
                        ).push(p2@));
                    }
                },
                _ => {},
            }
            proof {
                assert(crate::configuration::spec_strs_view(ids@) =~= base
                    + spec_column_prop_ids(self.columns@.take(i as int + 1)));
            }
            i += 1;
        }
        proof {
            assert(self.columns@.take(n as int) =~= self.columns@);
        }
        Ok(ids)
    }

    /// The ids the entity load must fetch, or nothing when no column reads
    /// entities; an empty subject list is an error.
    pub fn entity_ids_to_load(&self) -> (r: Result<Vec<String>, String>)
        ensures
            r matches Err(e) ==> e@ == "No items to show"@ || self.sparql_first_variable
                is None,
            !(exists|i: int|
                0 <= i < self.columns@.len() && !(#[trigger] self.columns@[i].obj is Number)
                    && !(self.columns@[i].obj is Item) && !(self.columns@[i].obj is Field))
                ==> (r matches Ok(ids) && ids@.len() == 0),
            self.sparql_first_variable matches Some(var) ==> ((exists|i: int|
                0 <= i < self.columns@.len() && !(#[trigger] self.columns@[i].obj is Number)
                    && !(self.columns@[i].obj is Item) && !(self.columns@[i].obj is Field))
                ==> (match r {
                Ok(ids) => ids@.len() > 0 && crate::configuration::spec_strs_view(ids@)
                    == spec_subjects(self.sparql_rows@, var@) + spec_column_prop_ids(
                    self.columns@,
                ),
                Err(e) => e@ == "No items to show"@ && (spec_subjects(self.sparql_rows@, var@)
                    + spec_column_prop_ids(self.columns@)).len() == 0,
            })),
    {
        if !self.columns_need_entities() {
            return Ok(Vec::new());
        }
        let ids = match self.get_ids_from_sparql_rows() {
            Ok(ids) => ids,
            Err(e) => {
                return Err(e);
            },
        };
        if ids.len() == 0 {
            return Err(String::from_str("No items to show"));
        }
        Ok(ids)
    }

    /// Replace each property column's label by the property's display
    /// label, when the property entity is cached.
    pub fn label_columns(&mut self)
        ensures
            final(self).columns@.len() == old(self).columns@.len(),
            unchanged_but_columns(old(self), final(self)),
            forall|i: int|
                0 <= i < old(self).columns@.len() ==> {
                    &&& (#[trigger] final(self).columns@[i]).obj.deep_view() == old(
                        self,
                    ).columns@[i].obj.deep_view()
                    &&& final(self).columns@[i].label@ == spec_column_label(
                        &*old(self),
                        old(self).columns@[i],
                    )
                },
    {
        let n = self.columns.len();
        let mut i: usize = 0;
        let mut new_columns: Vec<Column> = Vec::new();
        while i < n
            invariant
                n == self.columns@.len(),
                0 <= i <= n,
                new_columns@.len() == i,
                *self == *old(self),
                forall|k: int|
                    0 <= k < i ==> {
                        &&& (#[trigger] new_columns@[k]).obj.deep_view() == old(
                            self,
                        ).columns@[k].obj.deep_view()
                        &&& new_columns@[k].label@ == spec_column_label(
                            &*old(self),
                            old(self).columns@[k],
                        )
                    },
            decreases n - i,
        {
            let col = &self.columns[i];
            let label = match &col.obj {
                ColumnType::Property(p) => self.get_label_with_fallback(p.clone().as_str()),
                ColumnType::PropertyQualifier(p, _q) => self.get_label_with_fallback(
                    p.clone().as_str(),
                ),
                ColumnType::PropertyQualifierValue(p, _q, _p2) => self.get_label_with_fallback(
                    p.clone().as_str(),
                ),
                _ => col.label.clone(),
            };
            let obj = duplicate_column_type(&col.obj);
            new_columns.push(Column { obj, label });
            i += 1;
        }
        self.columns = new_columns;
    }

    /// The display label of an entity, falling back to the id itself when
    /// the entity or its label in the run's locale is missing.
    pub fn get_label_with_fallback(&self, entity_id: &str) -> (r: String)
        ensures
            r@ == (match spec_cached(&self.entities, entity_id@) {
                Some(e) => match spec_pair_lookup(e.labels, self.page_params.language@) {
                    Some(l) => l,
                    None => entity_id@,
                },
                None => entity_id@,
            }),
    {
        match self.entities.get_entity(entity_id) {
            Some(e) => {
                match e.label_in_locale(self.page_params.language.as_str()) {
                    Some(l) => l.clone(),
                    None => String::from_str(entity_id),
                }
            },
            None => String::from_str(entity_id),
        }
    }

    pub fn language(&self) -> (r: &String)
        ensures
            r == &self.page_params.language,
    {
        &self.page_params.language
    }

    pub fn wiki(&self) -> (r: &String)
        ensures
            r == &self.page_params.wiki,
    {
        &self.page_params.wiki
    }

    pub fn page_title(&self) -> (r: &String)
        ensures
            r == &self.page_params.page,
    {
        &self.page_params.page
    }

    pub fn results(&self) -> (r: &Vec<ResultRow>)
        ensures
            r == &self.results,
    {
        &self.results
    }

    pub fn columns(&self) -> (r: &Vec<Column>)
        ensures
            r == &self.columns,
    {
        &self.columns
    }

    pub fn shadow_files(&self) -> (r: &Vec<String>)
        ensures
            r == &self.shadow_files,
    {
        &self.shadow_files
    }

    pub fn sparql_rows(&self) -> (r: &Vec<SparqlRow>)
        ensures
            r == &self.sparql_rows,
    {
        &self.sparql_rows
    }

    pub fn local_file_namespace_prefix(&self) -> (r: &String)
        ensures
            r == &self.page_params.local_file_namespace_prefix,
    {
        self.page_params.local_file_namespace_prefix()
    }

    /// The name of a section id, while sections are assigned.
    pub fn section_name(&self, id: usize) -> (r: Option<&String>)
        ensures
            match r {
                Some(s) => id < self.section_names@.len() && s == &self.section_names@[id as int],
                None => id >= self.section_names@.len(),
            },
    {
        if id < self.section_names.len() {
            Some(&self.section_names[id])
        } else {
            None
        }
    }

    pub fn get_links_type(&self) -> (r: &LinksType)
        ensures
            r == &self.params.links,
    {
        &self.params.links
    }

    /// The lowered name of the wikibase setup the template selects: the
    /// key the embedding program picks its endpoint client with.
    pub fn wikibase_key(&self) -> (r: String)
        ensures
            r@ == spec_wikibase_key_of(&self.template),
    {
        match self.template.get("wikibase") {
            Some(v) => {
                let t = trim_str(v.as_str());
                lowercase(t.as_str())
            },
            None => lowercase("wikidata"),
        }
    }

    pub fn get_entity(&self, entity_id: &str) -> (r: Option<Entity>)
        ensures
            match r {
                Some(e) => spec_cached(&self.entities, entity_id@) == Some(e.deep_view()),
                None => spec_cached(&self.entities, entity_id@) is None,
            },
    {
        self.entities.get_entity(entity_id)
    }

    pub fn get_local_entity_label(&self, entity_id: &str) -> (r: Option<String>)
        ensures
            match spec_cached(&self.entities, entity_id@) {
                Some(e) => match r {
                    Some(l) => spec_pair_lookup(e.labels, self.page_params.language@) == Some(l@),
                    None => spec_pair_lookup(e.labels, self.page_params.language@) is None,
                },
                None => r is None,
            },
    {
        self.entities.get_local_entity_label(entity_id, self.page_params.language.as_str())
    }

    pub fn get_row_template(&self) -> (r: &Option<String>)
        ensures
            r == &self.params.row_template,
    {
        &self.params.row_template
    }

    pub fn summary(&self) -> (r: &Option<String>)
        ensures
            r == &self.params.summary,
    {
        &self.params.summary
    }

    pub fn header_template(&self) -> (r: &Option<String>)
        ensures
            r == &self.params.header_template,
    {
        &self.params.header_template
    }

    pub fn column(&self, column_id: usize) -> (r: Option<&Column>)
        ensures
            match r {
                Some(c) => column_id < self.columns@.len() && c == &self.columns@[
                    column_id as int
                ],
                None => column_id >= self.columns@.len(),
            },
    {
        if column_id < self.columns.len() {
            Some(&self.columns[column_id])
        } else {
            None
        }
    }

    pub fn skip_table(&self) -> (r: bool)
        ensures
            r == self.params.skip_table,
    {
        self.params.skip_table
    }

    pub fn default_language(&self) -> (r: &str)
        ensures
            r@ == self.page_params.config.default_language@,
    {
        self.page_params.config.default_language()
    }

    /// The thumbnail size: the template's `thumb` parameter when it is a
    /// number, else the configured default.
    pub fn thumbnail_size(&self) -> (r: u64)
        ensures
            r == (match spec_pair_lookup(
                crate::entity::spec_pairs_view(self.template.params@),
                "thumb"@,
            ) {
                Some(v) => match spec_parse_u64(v) {
                    Some(n) => n,
                    None => spec_default_thumb(&self.page_params.config),
                },
                None => spec_default_thumb(&self.page_params.config),
            }),
    {
        let default = self.page_params.config.default_thumbnail_size();
        match self.template.get("thumb") {
            Some(s) => {
                match parse_u64(s.as_str()) {
                    Some(n) => n,
                    None => default,
                }
            },
            None => default,
        }
    }

    /// The location template for the run's wiki, with the coordinate, item
    /// and region placeholders substituted.
    pub fn get_location_template(
        &self,
        lat: &str,
        lon: &str,
        entity_id: Option<&String>,
        region: Option<&String>,
    ) -> (r: String)
        requires
            spec_pair_lookup(
                crate::entity::spec_pairs_view(self.page_params.config.location_templates@),
                self.page_params.wiki@,
            ) is Some || spec_pair_lookup(
                crate::entity::spec_pairs_view(self.page_params.config.location_templates@),
                "default"@,
            ) is Some,
        ensures
            r@ == spec_replace_all(
                spec_replace_all(
                    spec_replace_all(
                        spec_replace_all(
                            spec_location_pattern(&self.page_params.config, self.page_params.wiki@),
                            "$LAT$"@,
                            lat@,
                        ),
                        "$LON$"@,
                        lon@,
                    ),
                    "$ITEM$"@,
                    match entity_id {
                        Some(e) => e@,
                        None => Seq::empty(),
                    },
                ),
                "$REGION$"@,
                match region {
                    Some(x) => x@,
                    None => Seq::empty(),
                },
            ),
    {
        let pattern = self.page_params.config.get_location_template(
            self.page_params.wiki.as_str(),
        );
        let s1 = replace_all(pattern.as_str(), "$LAT$", lat);
        let s2 = replace_all(s1.as_str(), "$LON$", lon);
        let item = match entity_id {
            Some(e) => e.clone(),
            None => String::new(),
        };
        let s3 = replace_all(s2.as_str(), "$ITEM$", item.as_str());
        let reg = match region {
            Some(x) => x.clone(),
            None => String::new(),
        };
        replace_all(s3.as_str(), "$REGION$", reg.as_str())
    }

    /// A page title with its first character upper-cased; titles shorter
    /// than two characters stay as they are.
    pub fn normalize_page_title(&self, s: &str) -> (r: String)
        ensures
            s@.len() < 2 ==> r@ == s@,
            s@.len() >= 2 ==> r@ == upper_of(s@.subrange(0, 1)) + s@.skip(1),
    {
        let len = s.unicode_len();
        if len < 2 {
            return String::from_str(s);
        }
        let first = s.substring_char(0, 1);
        let rest = s.substring_char(1, len);
        let mut r = uppercase(first);
        r.append(rest);
        proof {
            assert(first@ =~= s@.subrange(0, 1));
            assert(rest@ =~= s@.skip(1));
        }
        r
    }

    /// Whether a probed page exists: it does unless some returned page
    /// record was marked missing, and an unreadable probe counts as
    /// missing.
    pub fn page_exists_from_probe(missing_flags: &Option<Vec<bool>>) -> (r: bool)
        ensures
            r == (match missing_flags {
                Some(flags) => !flags@.contains(true),
                None => false,
            }),
    {
        match missing_flags {
            None => false,
            Some(flags) => {
                let n = flags.len();
                let mut i: usize = 0;
                while i < n
                    invariant
                        n == flags@.len(),
                        0 <= i <= n,
                        forall|k: int| 0 <= k < i ==> !(#[trigger] flags@[k]),
                    decreases n - i,
                {
                    if flags[i] {
                        assert(flags@.contains(true));
                        return false;
                    }
                    i += 1;
                }
                proof {
                    if flags@.contains(true) {
                        let k = choose|k: int| 0 <= k < flags@.len() && flags@[k];
                        assert(false);
                    }
                }
                true
            },
        }
    }

    /// Record the probed existence of a local page.
    pub fn record_local_page_exists(&mut self, page: String, exists_flag: bool)
        ensures
            final(self).local_page_cache@ == old(self).local_page_cache@.push(
                (page, exists_flag),
            ),
            unchanged_but_page_cache(old(self), final(self)),
    {
        self.local_page_cache.push((page, exists_flag));
    }

    /// Whether a local page is known to exist; unknown pages count as
    /// missing.
    pub fn local_page_exists(&self, page: &str) -> (r: bool)
        ensures
            r == (match spec_page_cache_lookup(self.local_page_cache@, page@) {
                Some(b) => b,
                None => false,
            }),
    {
        let n = self.local_page_cache.len();
        let mut i: usize = 0;
        proof {
            assert(self.local_page_cache@.skip(0) =~= self.local_page_cache@);
        }
        while i < n
            invariant
                n == self.local_page_cache@.len(),
                0 <= i <= n,
                spec_page_cache_lookup(self.local_page_cache@.skip(i as int), page@)
                    == spec_page_cache_lookup(self.local_page_cache@, page@),
            decreases n - i,
        {
            proof {
                assert(self.local_page_cache@.skip(i as int)[0] == self.local_page_cache@[
                    i as int
                ]);
                assert(self.local_page_cache@.skip(i as int).skip(1)
                    =~= self.local_page_cache@.skip(i as int + 1));
            }
            let pair = &self.local_page_cache[i];
            if str_eq(pair.0.as_str(), page) {
                return pair.1;
            }
            i += 1;
        }
        proof {
            assert(self.local_page_cache@.skip(i as int) =~= Seq::<(String, bool)>::empty());
        }
        false
    }
}

/// The display label one column ends with: the property entity's label for
/// property columns, the raw label otherwise.
pub open spec fn spec_column_label(l: &ListeriaList, col: Column) -> Seq<char> {
    match col.obj {
        ColumnType::Property(p) => spec_label_fallback(l, p@),
        ColumnType::PropertyQualifier(p, _q) => spec_label_fallback(l, p@),
        ColumnType::PropertyQualifierValue(p, _q, _p2) => spec_label_fallback(l, p@),
        _ => col.label@,
    }
}

/// The raw token of one column position: the comma-separated entry of the
/// `columns` parameter, or `item` when the parameter is absent.
pub open spec fn spec_column_token(template: &Template, i: int) -> Seq<char> {
    match spec_pair_lookup(
        crate::entity::spec_pairs_view(template.params@),
        "columns"@,
    ) {
        Some(v) => spec_split(v, ',')[i],
        None => "item"@,
    }
}

/// The lowered name of the wikibase setup the template selects.
pub open spec fn spec_wikibase_key_of(template: &Template) -> Seq<char> {
    lower_of(
        match spec_pair_lookup(
            crate::entity::spec_pairs_view(template.params@),
            "wikibase"@,
        ) {
            Some(v) => spec_trim(v),
            None => "wikidata"@,
        },
    )
}

/// Everything but the columns kept as it was.
pub open spec fn unchanged_but_columns(a: &ListeriaList, b: &ListeriaList) -> bool {
    &&& b.page_params == a.page_params
    &&& b.template == a.template
    &&& b.params == a.params
    &&& b.sparql_rows == a.sparql_rows
    &&& b.sparql_first_variable == a.sparql_first_variable
    &&& b.entities == a.entities
    &&& b.results == a.results
    &&& b.shadow_files == a.shadow_files
    &&& b.local_page_cache == a.local_page_cache
    &&& b.section_names == a.section_names
}

/// Everything but the page-existence cache kept as it was.
pub open spec fn unchanged_but_page_cache(a: &ListeriaList, b: &ListeriaList) -> bool {
    &&& b.page_params == a.page_params
    &&& b.template == a.template
    &&& b.columns == a.columns
    &&& b.params == a.params
    &&& b.sparql_rows == a.sparql_rows
    &&& b.sparql_first_variable == a.sparql_first_variable
    &&& b.entities == a.entities
    &&& b.results == a.results
    &&& b.shadow_files == a.shadow_files
    &&& b.section_names == a.section_names
}

/// First-match lookup in the page-existence cache.
pub open spec fn spec_page_cache_lookup(pairs: Seq<(String, bool)>, page: Seq<char>) -> Option<
    bool,
>
    decreases pairs.len(),
{
    if pairs.len() == 0 {
        None
    } else if pairs[0].0@ == page {
        Some(pairs[0].1)
    } else {
        spec_page_cache_lookup(pairs.skip(1), page)
    }
}

/// The location template pattern for a wiki: its own entry, else the
/// `default` entry.
pub open spec fn spec_location_pattern(c: &crate::configuration::Configuration, wiki: Seq<char>)
    -> Seq<char> {
    match spec_pair_lookup(crate::entity::spec_pairs_view(c.location_templates@), wiki) {
        Some(t) => t,
        None => spec_pair_lookup(
            crate::entity::spec_pairs_view(c.location_templates@),
            "default"@,
        )->Some_0,
    }
}

/// The configured default thumbnail size, 128 when unset.
pub open spec fn spec_default_thumb(c: &crate::configuration::Configuration) -> u64 {
    match c.default_thumbnail_size {
        Some(s) => s,
        None => 128u64,
    }
}

/// An owned copy of a column kind with the same view.
pub fn duplicate_column_type(c: &ColumnType) -> (r: ColumnType)
    ensures
        r.deep_view() == c.deep_view(),
{
    match c {
        ColumnType::Item => ColumnType::Item,
        ColumnType::Number => ColumnType::Number,
        ColumnType::Label => ColumnType::Label,
        ColumnType::Field(s) => ColumnType::Field(s.clone()),
        ColumnType::Property(p) => ColumnType::Property(p.clone()),
        ColumnType::PropertyQualifier(p, q) => ColumnType::PropertyQualifier(
            p.clone(),
            q.clone(),
        ),
        ColumnType::PropertyQualifierValue(p, q, p2) => ColumnType::PropertyQualifierValue(
            p.clone(),
            q.clone(),
            p2.clone(),
        ),
    }
}

/// Every id in `out` is a subject bound in some result row.
pub open spec fn spec_all_from_rows(
    rows: Seq<SparqlRow>,
    varname: Seq<char>,
    out: Seq<String>,
) -> bool {
    forall|i: int|
        #![trigger out[i]]
        0 <= i < out.len() ==> exists|k: int|
            0 <= k < rows.len() && spec_row_get(#[trigger] rows[k].deep_view(), varname)
                == Some(SparqlValueView::Entity(out[i]@))
}


/// The subject id of each result row, in first appearance order, one
/// entry per distinct id.
pub open spec fn spec_subjects(rows: Seq<SparqlRow>, var: Seq<char>) -> Seq<Seq<char>>
    decreases rows.len(),
{
    if rows.len() == 0 {
        Seq::empty()
    } else {
        let pre = spec_subjects(rows.drop_last(), var);
        match spec_row_get(rows.last().deep_view(), var) {
            Some(SparqlValueView::Entity(id)) => if pre.contains(id) {
                pre
            } else {
                pre.push(id)
            },
            _ => pre,
        }
    }
}

/// The indices of the result rows whose subject is `id`.
pub open spec fn spec_match_idxs(rows: Seq<SparqlRow>, var: Seq<char>, id: Seq<char>, from: int)
    -> Seq<int>
    decreases rows.len() - from,
{
    if from < 0 || from >= rows.len() {
        Seq::empty()
    } else if spec_row_get(rows[from].deep_view(), var) == Some(SparqlValueView::Entity(id)) {
        seq![from] + spec_match_idxs(rows, var, id, from + 1)
    } else {
        spec_match_idxs(rows, var, id, from + 1)
    }
}

/// The display label an id falls back on: the cached label in the run's
/// locale, else the id itself.
pub open spec fn spec_label_fallback(l: &ListeriaList, id: Seq<char>) -> Seq<char> {
    match spec_cached(&l.entities, id) {
        Some(e) => match spec_pair_lookup(e.labels, l.page_params.language@) {
            Some(lab) => lab,
            None => id,
        },
        None => id,
    }
}

/// The parts a field column collects: one per listed result row that
/// binds the variable.
pub open spec fn spec_field_parts(
    rows: Seq<SparqlRow>,
    idxs: Seq<int>,
    name: Seq<char>,
) -> Seq<PartView>
    decreases idxs.len(),
{
    if idxs.len() == 0 {
        Seq::empty()
    } else {
        let rest = spec_field_parts(rows, idxs.skip(1), name);
        if 0 <= idxs[0] < rows.len() {
            match spec_row_get(rows[idxs[0]].deep_view(), name) {
                Some(v) => seq![spec_part_from_sparql(v)] + rest,
                None => rest,
            }
        } else {
            rest
        }
    }
}

/// The parts a property column collects: one per filtered statement.
pub open spec fn spec_claim_parts(
    stmts: Seq<StatementView>,
    idxs: Seq<int>,
    prop: Seq<char>,
) -> Seq<PartView>
    decreases idxs.len(),
{
    if idxs.len() == 0 {
        Seq::empty()
    } else {
        let rest = spec_claim_parts(stmts, idxs.skip(1), prop);
        if 0 <= idxs[0] < stmts.len() {
            seq![
                spec_part_from_snak(prop, stmts[idxs[0]].datatype, stmts[idxs[0]].value),
            ] + rest
        } else {
            rest
        }
    }
}

/// The parts the qualifiers with one property contribute.
pub open spec fn spec_qual_parts(
    quals: Seq<crate::entity::QualifierView>,
    q: Seq<char>,
) -> Seq<PartView>
    decreases quals.len(),
{
    if quals.len() == 0 {
        Seq::empty()
    } else {
        let rest = spec_qual_parts(quals.skip(1), q);
        if quals[0].property == q {
            seq![spec_part_from_snak(quals[0].property, quals[0].datatype, quals[0].value)]
                + rest
        } else {
            rest
        }
    }
}

/// Zero or one part per statement: its matching qualifier values, nested
/// as a list when several apply.
pub open spec fn spec_wrap_parts(parts: Seq<PartView>) -> Seq<PartView> {
    if parts.len() == 0 {
        Seq::empty()
    } else if parts.len() == 1 {
        parts
    } else {
        seq![PartView::SnakList(parts)]
    }
}

/// The parts a property/qualifier column collects.
pub open spec fn spec_pq_parts(
    stmts: Seq<StatementView>,
    idxs: Seq<int>,
    q: Seq<char>,
) -> Seq<PartView>
    decreases idxs.len(),
{
    if idxs.len() == 0 {
        Seq::empty()
    } else {
        let rest = spec_pq_parts(stmts, idxs.skip(1), q);
        if 0 <= idxs[0] < stmts.len() {
            spec_wrap_parts(spec_qual_parts(stmts[idxs[0]].qualifiers, q)) + rest
        } else {
            rest
        }
    }
}

/// The parts a property/qualifier/property column collects: for each
/// statement that carries the qualifier, the values of the second
/// property's qualifiers.
pub open spec fn spec_pqv_parts(
    stmts: Seq<StatementView>,
    idxs: Seq<int>,
    q: Seq<char>,
    p2: Seq<char>,
) -> Seq<PartView>
    decreases idxs.len(),
{
    if idxs.len() == 0 {
        Seq::empty()
    } else {
        let rest = spec_pqv_parts(stmts, idxs.skip(1), q, p2);
        if 0 <= idxs[0] < stmts.len() && spec_qual_parts(stmts[idxs[0]].qualifiers, q).len()
            > 0 {
            spec_wrap_parts(spec_qual_parts(stmts[idxs[0]].qualifiers, p2)) + rest
        } else {
            rest
        }
    }
}

/// The parts one column yields for one subject.
pub open spec fn spec_cell(
    l: &ListeriaList,
    id: Seq<char>,
    idxs: Seq<int>,
    colv: ColumnTypeView,
) -> Seq<PartView> {
    match colv {
        ColumnTypeView::Item => seq![PartView::Entity(id, true)],
        ColumnTypeView::Number => seq![PartView::Number],
        ColumnTypeView::Label => seq![PartView::Text(spec_label_fallback(l, id))],
        ColumnTypeView::Field(name) => spec_field_parts(l.sparql_rows@, idxs, name),
        ColumnTypeView::Property(p) => match spec_cached(&l.entities, id) {
            Some(e) => spec_claim_parts(
                e.statements,
                spec_filtered_claim_idxs(e.statements, p, l.page_params.config.prefer_preferred),
                p,
            ),
            None => Seq::empty(),
        },
        ColumnTypeView::PropertyQualifier(p, q) => match spec_cached(&l.entities, id) {
            Some(e) => spec_pq_parts(
                e.statements,
                spec_filtered_claim_idxs(e.statements, p, l.page_params.config.prefer_preferred),
                q,
            ),
            None => Seq::empty(),
        },
        ColumnTypeView::PropertyQualifierValue(p, q, p2) => match spec_cached(&l.entities, id) {
            Some(e) => spec_pqv_parts(
                e.statements,
                spec_filtered_claim_idxs(e.statements, p, l.page_params.config.prefer_preferred),
                q,
                p2,
            ),
            None => Seq::empty(),
        },
    }
}

/// The row one subject builds: its cells per configured column; nothing
/// for an empty binding list, and nothing when the link mode demands a
/// local page and the subject has no sitelink on the run's wiki.
pub open spec fn spec_built_row(l: &ListeriaList, id: Seq<char>, idxs: Seq<int>) -> Option<
    RowView,
> {
    if idxs.len() == 0 {
        None
    } else if l.params.links == LinksType::Local && (match spec_cached(&l.entities, id) {
        Some(e) => spec_pair_lookup(e.sitelinks, l.page_params.wiki@) is None,
        None => true,
    }) {
        None
    } else {
        Some(
            RowView {
                entity_id: id,
                cells: Seq::new(
                    l.columns@.len(),
                    |c: int| spec_cell(l, id, idxs, l.columns@[c].obj.deep_view()),
                ),
                sortkey: Seq::empty(),
                section: 0,
            },
        )
    }
}

impl ListeriaList {
    /// The indices of the result rows whose subject is `id`.
    pub fn row_indices_for_subject(&self, varname: &str, id: &str) -> (r: Vec<usize>)
        ensures
            crate::entity::spec_idxs_of(r@) =~= spec_match_idxs(
                self.sparql_rows@,
                varname@,
                id@,
                0,
            ),
    {
        let n = self.sparql_rows.len();
        let mut out: Vec<usize> = Vec::new();
        let mut k: usize = 0;
        while k < n
            invariant
                n == self.sparql_rows@.len(),
                0 <= k <= n,
                crate::entity::spec_idxs_of(out@) + spec_match_idxs(
                    self.sparql_rows@,
                    varname@,
                    id@,
                    k as int,
                ) =~= spec_match_idxs(self.sparql_rows@, varname@, id@, 0),
            decreases n - k,
        {
            let row = &self.sparql_rows[k];
            let matches_subject = match row.get(varname) {
                Some(SparqlValue::Entity(v)) => str_eq(v.as_str(), id),
                _ => false,
            };
            if matches_subject {
                let ghost ob = out@;
                out.push(k);
                proof {
                    assert(crate::entity::spec_idxs_of(out@) =~= crate::entity::spec_idxs_of(ob)
                        + seq![k as int]);
                    assert(crate::entity::spec_idxs_of(ob) + (seq![k as int] + spec_match_idxs(
                        self.sparql_rows@,
                        varname@,
                        id@,
                        k as int + 1,
                    )) =~= crate::entity::spec_idxs_of(out@) + spec_match_idxs(
                        self.sparql_rows@,
                        varname@,
                        id@,
                        k as int + 1,
                    ));
                }
            }
            k += 1;
        }
        proof {
            assert(spec_match_idxs(self.sparql_rows@, varname@, id@, n as int)
                =~= Seq::<int>::empty());
            assert(crate::entity::spec_idxs_of(out@) + Seq::<int>::empty()
                =~= crate::entity::spec_idxs_of(out@));
        }
        out
    }

    /// Build one cell: the parts this column yields for this subject.
    pub fn get_result_cell(&self, entity_id: &str, row_idxs: &Vec<usize>, col: &Column) -> (r:
        ResultCell)
        ensures
            r.deep_view() == spec_cell(
                self,
                entity_id@,
                crate::entity::spec_idxs_of(row_idxs@),
                col.obj.deep_view(),
            ),
    {
        let ghost idxs = crate::entity::spec_idxs_of(row_idxs@);
        let mut parts: Vec<ResultCellPart> = Vec::new();
        match &col.obj {
            ColumnType::Item => {
                let ghost pb = parts@;
                let part = ResultCellPart::Entity(String::from_str(entity_id), true);
                let ghost pg = part;
                parts.push(part);
                proof {
                    assert(parts@ == pb.push(pg));
                    crate::row::lemma_part_views_push(pb, pg);
                    assert(spec_part_views(pb) =~= Seq::<PartView>::empty());
                    assert(spec_part_views(parts@) =~= spec_cell(
                        self,
                        entity_id@,
                        idxs,
                        col.obj.deep_view(),
                    ));
                }
            },
            ColumnType::Number => {
                let ghost pb = parts@;
                let part = ResultCellPart::Number;
                let ghost pg = part;
                parts.push(part);
                proof {
                    assert(parts@ == pb.push(pg));
                    crate::row::lemma_part_views_push(pb, pg);
                    assert(spec_part_views(pb) =~= Seq::<PartView>::empty());
                    assert(spec_part_views(parts@) =~= spec_cell(
                        self,
                        entity_id@,
                        idxs,
                        col.obj.deep_view(),
                    ));
                }
            },
            ColumnType::Label => {
                let ghost pb = parts@;
                let part = ResultCellPart::Text(self.get_label_with_fallback(entity_id));
                let ghost pg = part;
                parts.push(part);
                proof {
                    assert(parts@ == pb.push(pg));
                    crate::row::lemma_part_views_push(pb, pg);
                    assert(spec_part_views(pb) =~= Seq::<PartView>::empty());
                    assert(spec_part_views(parts@) =~= spec_cell(
                        self,
                        entity_id@,
                        idxs,
                        col.obj.deep_view(),
                    ));
                }
            },
            ColumnType::Field(name) => {
                let n = row_idxs.len();
                let mut k: usize = 0;
                proof {
                    assert(idxs.skip(0) =~= idxs);
                    assert(spec_part_views(parts@) =~= Seq::<PartView>::empty());
                }
                while k < n
                    invariant
                        n == row_idxs@.len(),
                        0 <= k <= n,
                        idxs == crate::entity::spec_idxs_of(row_idxs@),
                        idxs.len() == n,
                        col.obj matches ColumnType::Field(nm) && nm@ == name@,
                        spec_part_views(parts@) + spec_field_parts(
                            self.sparql_rows@,
                            idxs.skip(k as int),
                            name@,
                        ) =~= spec_field_parts(self.sparql_rows@, idxs, name@),
                    decreases n - k,
                {
                    proof {
                        assert(idxs.skip(k as int)[0] == idxs[k as int]);
                        assert(idxs[k as int] == row_idxs@[k as int] as int);
                        assert(idxs.skip(k as int).skip(1) =~= idxs.skip(k as int + 1));
                    }
                    let idx = row_idxs[k];
                    if idx < self.sparql_rows.len() {
                        let row = &self.sparql_rows[idx];
                        match row.get(name.as_str()) {
                            Some(v) => {
                                let ghost pb = parts@;
                                let p = part_from_sparql(v);
                                let ghost pg = p;
                                parts.push(p);
                                proof {
                                    assert(parts@ == pb.push(pg));
                                    crate::row::lemma_part_views_push(pb, pg);
                                    assert(spec_part_views(parts@) + spec_field_parts(
                                        self.sparql_rows@,
                                        idxs.skip(k as int + 1),
                                        name@,
                                    ) =~= spec_field_parts(self.sparql_rows@, idxs, name@));
                                }
                            },
                            None => {},
                        }
                    }
                    k += 1;
                }
                proof {
                    assert(idxs.skip(n as int) =~= Seq::<int>::empty());
                    assert(spec_part_views(parts@) + Seq::<PartView>::empty() =~= spec_part_views(
                        parts@,
                    ));
                }
            },
            ColumnType::Property(p) => {
                match self.entities.get_entity(entity_id) {
                    None => {},
                    Some(e) => {
                        let cidxs = e.filtered_claim_indices(
                            p.as_str(),
                            self.page_params.config.prefer_preferred,
                        );
                        let ghost civ = crate::entity::spec_idxs_of(cidxs@);
                        let n = cidxs.len();
                        let mut k: usize = 0;
                        proof {
                            assert(civ.skip(0) =~= civ);
                            assert(spec_part_views(parts@) =~= Seq::<PartView>::empty());
                        }
                        while k < n
                            invariant
                                n == cidxs@.len(),
                                0 <= k <= n,
                                civ == crate::entity::spec_idxs_of(cidxs@),
                                civ.len() == n,
                                forall|t: int|
                                    0 <= t < n ==> 0 <= #[trigger] cidxs@[t]
                                        < e.statements@.len(),
                                col.obj matches ColumnType::Property(pp) && pp@ == p@,
                                spec_part_views(parts@) + spec_claim_parts(
                                    e.deep_view().statements,
                                    civ.skip(k as int),
                                    p@,
                                ) =~= spec_claim_parts(e.deep_view().statements, civ, p@),
                            decreases n - k,
                        {
                            proof {
                                assert(civ.skip(k as int)[0] == civ[k as int]);
                                assert(civ[k as int] == cidxs@[k as int] as int);
                                assert(civ.skip(k as int).skip(1) =~= civ.skip(k as int + 1));
                                assert(e.deep_view().statements[cidxs@[k as int] as int]
                                    == e.statements@[cidxs@[k as int] as int].deep_view());
                            }
                            let st = &e.statements[cidxs[k]];
                            let ghost pb = parts@;
                            let part = part_from_snak(p.as_str(), &st.datatype, &st.value);
                            let ghost pg = part;
                            parts.push(part);
                            proof {
                                assert(parts@ == pb.push(pg));
                                crate::row::lemma_part_views_push(pb, pg);
                                assert(spec_part_views(parts@) + spec_claim_parts(
                                    e.deep_view().statements,
                                    civ.skip(k as int + 1),
                                    p@,
                                ) =~= spec_claim_parts(e.deep_view().statements, civ, p@));
                            }
                            k += 1;
                        }
                        proof {
                            assert(civ.skip(n as int) =~= Seq::<int>::empty());
                            assert(spec_part_views(parts@) + Seq::<PartView>::empty()
                                =~= spec_part_views(parts@));
                        }
                    },
                }
            },
            ColumnType::PropertyQualifier(p, q) => {
                match self.entities.get_entity(entity_id) {
                    None => {},
                    Some(e) => {
                        let cidxs = e.filtered_claim_indices(
                            p.as_str(),
                            self.page_params.config.prefer_preferred,
                        );
                        let ghost civ = crate::entity::spec_idxs_of(cidxs@);
                        let n = cidxs.len();
                        let mut k: usize = 0;
                        proof {
                            assert(civ.skip(0) =~= civ);
                            assert(spec_part_views(parts@) =~= Seq::<PartView>::empty());
                        }
                        while k < n
                            invariant
                                n == cidxs@.len(),
                                0 <= k <= n,
                                civ == crate::entity::spec_idxs_of(cidxs@),
                                civ.len() == n,
                                forall|t: int|
                                    0 <= t < n ==> 0 <= #[trigger] cidxs@[t]
                                        < e.statements@.len(),
                                col.obj matches ColumnType::PropertyQualifier(pp, qq) && pp@
                                    == p@ && qq@ == q@,
                                spec_part_views(parts@) + spec_pq_parts(
                                    e.deep_view().statements,
                                    civ.skip(k as int),
                                    q@,
                                ) =~= spec_pq_parts(e.deep_view().statements, civ, q@),
                            decreases n - k,
                        {
                            proof {
                                assert(civ.skip(k as int)[0] == civ[k as int]);
                                assert(civ[k as int] == cidxs@[k as int] as int);
                                assert(civ.skip(k as int).skip(1) =~= civ.skip(k as int + 1));
                                assert(e.deep_view().statements[cidxs@[k as int] as int]
                                    == e.statements@[cidxs@[k as int] as int].deep_view());
                            }
                            let st = &e.statements[cidxs[k]];
                            let qparts = qual_parts(&st.qualifiers, q.as_str());
                            let ghost pb = parts@;
                            push_wrapped(&mut parts, qparts);
                            proof {
                                assert(spec_part_views(parts@) + spec_pq_parts(
                                    e.deep_view().statements,
                                    civ.skip(k as int + 1),
                                    q@,
                                ) =~= spec_pq_parts(e.deep_view().statements, civ, q@));
                            }
                            k += 1;
                        }
                        proof {
                            assert(civ.skip(n as int) =~= Seq::<int>::empty());
                            assert(spec_part_views(parts@) + Seq::<PartView>::empty()
                                =~= spec_part_views(parts@));
                        }
                    },
                }
            },
            ColumnType::PropertyQualifierValue(p, q, p2) => {
                match self.entities.get_entity(entity_id) {
                    None => {},
                    Some(e) => {
                        let cidxs = e.filtered_claim_indices(
                            p.as_str(),
                            self.page_params.config.prefer_preferred,
                        );
                        let ghost civ = crate::entity::spec_idxs_of(cidxs@);
                        let n = cidxs.len();
                        let mut k: usize = 0;
                        proof {
                            assert(civ.skip(0) =~= civ);
                            assert(spec_part_views(parts@) =~= Seq::<PartView>::empty());
                        }
                        while k < n
                            invariant
                                n == cidxs@.len(),
                                0 <= k <= n,
                                civ == crate::entity::spec_idxs_of(cidxs@),
                                civ.len() == n,
                                forall|t: int|
                                    0 <= t < n ==> 0 <= #[trigger] cidxs@[t]
                                        < e.statements@.len(),
                                col.obj matches ColumnType::PropertyQualifierValue(pp, qq, rr)
                                    && pp@ == p@ && qq@ == q@ && rr@ == p2@,
                                spec_part_views(parts@) + spec_pqv_parts(
                                    e.deep_view().statements,
                                    civ.skip(k as int),
                                    q@,
                                    p2@,
                                ) =~= spec_pqv_parts(e.deep_view().statements, civ, q@, p2@),
                            decreases n - k,
                        {
                            proof {
                                assert(civ.skip(k as int)[0] == civ[k as int]);
                                assert(civ[k as int] == cidxs@[k as int] as int);
                                assert(civ.skip(k as int).skip(1) =~= civ.skip(k as int + 1));
                                assert(e.deep_view().statements[cidxs@[k as int] as int]
                                    == e.statements@[cidxs@[k as int] as int].deep_view());
                            }
                            let st = &e.statements[cidxs[k]];
                            let gate = qual_parts(&st.qualifiers, q.as_str());
                            if gate.len() > 0 {
                                let qparts = qual_parts(&st.qualifiers, p2.as_str());
                                push_wrapped(&mut parts, qparts);
                            }
                            proof {
                                assert(spec_part_views(parts@) + spec_pqv_parts(
                                    e.deep_view().statements,
                                    civ.skip(k as int + 1),
                                    q@,
                                    p2@,
                                ) =~= spec_pqv_parts(e.deep_view().statements, civ, q@, p2@));
                            }
                            k += 1;
                        }
                        proof {
                            assert(civ.skip(n as int) =~= Seq::<int>::empty());
                            assert(spec_part_views(parts@) + Seq::<PartView>::empty()
                                =~= spec_part_views(parts@));
                        }
                    },
                }
            },
        }
        ResultCell::new_from_parts(parts)
    }

    /// Build one row: one cell per configured column; `None` for an empty
    /// binding list, and `None` when the link mode demands a local page
    /// and the subject has none.
    pub fn get_result_row(&self, entity_id: &str, row_idxs: &Vec<usize>) -> (r: Option<
        ResultRow,
    >)
        ensures
            match r {
                Some(row) => spec_built_row(
                    self,
                    entity_id@,
                    crate::entity::spec_idxs_of(row_idxs@),
                ) == Some(row.deep_view()),
                None => spec_built_row(self, entity_id@, crate::entity::spec_idxs_of(row_idxs@))
                    is None,
            },
    {
        if row_idxs.len() == 0 {
            return None;
        }
        let is_local = match &self.params.links {
            LinksType::Local => true,
            _ => false,
        };
        if is_local {
            let has_sitelink = match self.entities.get_entity(entity_id) {
                Some(e) => {
                    match e.sitelink_title(self.page_params.wiki.as_str()) {
                        Some(_) => true,
                        None => false,
                    }
                },
                None => false,
            };
            if !has_sitelink {
                return None;
            }
        }
        let mut row = ResultRow::new(entity_id);
        let n = self.columns.len();
        let mut cells: Vec<ResultCell> = Vec::new();
        let ghost idxs = crate::entity::spec_idxs_of(row_idxs@);
        while cells.len() < n
            invariant
                n == self.columns@.len(),
                cells@.len() <= n,
                idxs == crate::entity::spec_idxs_of(row_idxs@),
                forall|c: int|
                    0 <= c < cells@.len() ==> #[trigger] cells@[c].deep_view() == spec_cell(
                        self,
                        entity_id@,
                        idxs,
                        self.columns@[c].obj.deep_view(),
                    ),
            decreases n - cells@.len(),
        {
            let c = cells.len();
            let cell = self.get_result_cell(entity_id, row_idxs, &self.columns[c]);
            cells.push(cell);
        }
        row.set_cells(cells);
        proof {
            assert(row.deep_view().cells =~= spec_built_row(self, entity_id@, idxs)->Some_0.cells)
                by {
                assert forall|c: int|
                    0 <= c < row.deep_view().cells.len() implies row.deep_view().cells[c]
                    == spec_built_row(self, entity_id@, idxs)->Some_0.cells[c] by {
                    assert(row.cells.deep_view()[c] == row.cells@[c].deep_view());
                }
            }
            assert(spec_built_row(self, entity_id@, idxs) == Some(row.deep_view()));
        }
        Some(row)
    }
}

/// The parts the qualifiers with one property contribute, in order.
fn qual_parts(quals: &Vec<crate::entity::Qualifier>, q: &str) -> (r: Vec<ResultCellPart>)
    ensures
        spec_part_views(r@) =~= spec_qual_parts(quals.deep_view(), q@),
{
    let ghost qv = quals.deep_view();
    let n = quals.len();
    let mut out: Vec<ResultCellPart> = Vec::new();
    let mut k: usize = 0;
    proof {
        assert(qv.skip(0) =~= qv);
    }
    while k < n
        invariant
            n == quals@.len(),
            qv == quals.deep_view(),
            qv.len() == n,
            0 <= k <= n,
            spec_part_views(out@) + spec_qual_parts(qv.skip(k as int), q@) =~= spec_qual_parts(
                qv,
                q@,
            ),
        decreases n - k,
    {
        proof {
            assert(qv.skip(k as int)[0] == qv[k as int]);
            assert(qv[k as int] == quals@[k as int].deep_view());
            assert(qv.skip(k as int).skip(1) =~= qv.skip(k as int + 1));
        }
        let qual = &quals[k];
        if str_eq(qual.property.as_str(), q) {
            let ghost pb = out@;
            let part = part_from_snak(qual.property.as_str(), &qual.datatype, &qual.value);
            let ghost pg = part;
            out.push(part);
            proof {
                assert(out@ == pb.push(pg));
                crate::row::lemma_part_views_push(pb, pg);
                assert(spec_part_views(out@) + spec_qual_parts(qv.skip(k as int + 1), q@)
                    =~= spec_qual_parts(qv, q@));
            }
        }
        k += 1;
    }
    proof {
        assert(qv.skip(n as int) =~= Seq::<crate::entity::QualifierView>::empty());
        assert(spec_qual_parts(qv.skip(n as int), q@) =~= Seq::<PartView>::empty());
        assert(spec_part_views(out@) + Seq::<PartView>::empty() =~= spec_part_views(out@));
    }
    out
}

/// Append a statement's qualifier parts: alone when one, nested in a
/// list when several.
fn push_wrapped(parts: &mut Vec<ResultCellPart>, qparts: Vec<ResultCellPart>)
    ensures
        spec_part_views(final(parts)@) =~= spec_part_views(old(parts)@) + spec_wrap_parts(
            spec_part_views(qparts@),
        ),
{
    let ghost before = parts@;
    let ghost qpv = spec_part_views(qparts@);
    proof {
        crate::row::lemma_part_views_index(qparts@);
    }
    if qparts.len() == 0 {
        proof {
            assert(spec_part_views(parts@) + spec_wrap_parts(qpv) =~= spec_part_views(parts@));
        }
        return ;
    }
    if qparts.len() == 1 {
        let mut qparts = qparts;
        let x = match qparts.pop() {
            Some(x) => x,
            None => {
                proof {
                    assert(false);
                }
                return ;
            },
        };
        let ghost xg = x;
        parts.push(x);
        proof {
            assert(parts@ == before.push(xg));
            crate::row::lemma_part_views_push(before, xg);
            assert(qpv =~= seq![spec_part_view(xg)]);
            assert(spec_part_views(parts@) =~= spec_part_views(before) + spec_wrap_parts(qpv));
        }
        return ;
    }
    let ghost xg2 = ResultCellPart::SnakList(qparts);
    let wrapped = ResultCellPart::SnakList(qparts);
    proof {
        assert(wrapped.deep_view() == PartView::SnakList(qpv));
    }
    let ghost wg = wrapped;
    parts.push(wrapped);
    proof {
        assert(parts@ == before.push(wg));
        crate::row::lemma_part_views_push(before, wg);
        assert(spec_wrap_parts(qpv) =~= seq![PartView::SnakList(qpv)]);
        assert(spec_part_views(parts@) =~= spec_part_views(before) + spec_wrap_parts(qpv));
    }
}


/// The rows one subject list generates, in order: subjects with matching
/// result rows whose build succeeds.
pub open spec fn spec_gen_orpi(l: &ListeriaList, var: Seq<char>, subs: Seq<Seq<char>>) -> Seq<
    RowView,
>
    decreases subs.len(),
{
    if subs.len() == 0 {
        Seq::empty()
    } else {
        let rest = spec_gen_orpi(l, var, subs.skip(1));
        match spec_built_row(l, subs[0], spec_match_idxs(l.sparql_rows@, var, subs[0], 0)) {
            Some(row) => seq![row] + rest,
            None => rest,
        }
    }
}

/// The rows generated one per result row, in order.
pub open spec fn spec_gen_per_row(l: &ListeriaList, var: Seq<char>, k: int) -> Seq<RowView>
    decreases l.sparql_rows@.len() - k,
{
    if k < 0 || k >= l.sparql_rows@.len() {
        Seq::empty()
    } else {
        let rest = spec_gen_per_row(l, var, k + 1);
        match spec_row_get(l.sparql_rows@[k].deep_view(), var) {
            Some(SparqlValueView::Entity(id)) => match spec_built_row(l, id, seq![k]) {
                Some(row) => seq![row] + rest,
                None => rest,
            },
            _ => rest,
        }
    }
}

/// Everything but the results kept as it was.
pub open spec fn unchanged_but_results(a: &ListeriaList, b: &ListeriaList) -> bool {
    &&& b.page_params == a.page_params
    &&& b.template == a.template
    &&& b.columns == a.columns
    &&& b.params == a.params
    &&& b.sparql_rows == a.sparql_rows
    &&& b.sparql_first_variable == a.sparql_first_variable
    &&& b.entities == a.entities
    &&& b.shadow_files == a.shadow_files
    &&& b.local_page_cache == a.local_page_cache
    &&& b.section_names == a.section_names
}

/// The fields row building reads, equal in two list states.
pub open spec fn spec_same_core(a: &ListeriaList, b: &ListeriaList) -> bool {
    &&& b.page_params == a.page_params
    &&& b.template == a.template
    &&& b.columns == a.columns
    &&& b.params == a.params
    &&& b.sparql_rows == a.sparql_rows
    &&& b.sparql_first_variable == a.sparql_first_variable
    &&& b.entities == a.entities
}

/// Row building reads only the core fields.
proof fn lemma_cell_same(
    a: &ListeriaList,
    b: &ListeriaList,
    id: Seq<char>,
    idxs: Seq<int>,
    colv: ColumnTypeView,
)
    requires
        spec_same_core(a, b),
    ensures
        spec_cell(a, id, idxs, colv) == spec_cell(b, id, idxs, colv),
{
}

proof fn lemma_built_row_same(a: &ListeriaList, b: &ListeriaList, id: Seq<char>, idxs: Seq<int>)
    requires
        spec_same_core(a, b),
    ensures
        spec_built_row(a, id, idxs) == spec_built_row(b, id, idxs),
{
    if !(a.params.links == LinksType::Local && (match spec_cached(&a.entities, id) {
        Some(e) => spec_pair_lookup(e.sitelinks, a.page_params.wiki@) is None,
        None => true,
    })) {
        assert forall|c: int|
            0 <= c < a.columns@.len() implies spec_built_row(a, id, idxs)->Some_0.cells[c]
            == spec_built_row(b, id, idxs)->Some_0.cells[c] by {
            lemma_cell_same(a, b, id, idxs, a.columns@[c].obj.deep_view());
        }
        assert(spec_built_row(a, id, idxs)->Some_0.cells =~= spec_built_row(
            b,
            id,
            idxs,
        )->Some_0.cells);
        assert(spec_built_row(a, id, idxs)->Some_0 =~= spec_built_row(b, id, idxs)->Some_0);
    }
}

proof fn lemma_gen_orpi_same(
    a: &ListeriaList,
    b: &ListeriaList,
    var: Seq<char>,
    subs: Seq<Seq<char>>,
)
    requires
        spec_same_core(a, b),
    ensures
        spec_gen_orpi(a, var, subs) == spec_gen_orpi(b, var, subs),
    decreases subs.len(),
{
    if subs.len() > 0 {
        lemma_gen_orpi_same(a, b, var, subs.skip(1));
        lemma_built_row_same(a, b, subs[0], spec_match_idxs(a.sparql_rows@, var, subs[0], 0));
    }
}

proof fn lemma_gen_per_row_same(a: &ListeriaList, b: &ListeriaList, var: Seq<char>, k: int)
    requires
        spec_same_core(a, b),
    ensures
        spec_gen_per_row(a, var, k) == spec_gen_per_row(b, var, k),
    decreases a.sparql_rows@.len() - k,
{
    if 0 <= k < a.sparql_rows@.len() {
        lemma_gen_per_row_same(a, b, var, k + 1);
        match spec_row_get(a.sparql_rows@[k].deep_view(), var) {
            Some(SparqlValueView::Entity(id)) => {
                lemma_built_row_same(a, b, id, seq![k]);
            },
            _ => {},
        }
    }
}

impl ListeriaList {
    /// Build the result rows: one per subject when one row per item is
    /// set, else one per query result row.
    #[verifier::rlimit(100)]
    #[verifier::spinoff_prover]
    pub fn generate_results(&mut self) -> (r: Result<(), String>)
        ensures
            (r is Ok) == (old(self).sparql_first_variable is Some),
            r is Ok ==> unchanged_but_results(old(self), final(self)),
            r is Ok ==> (old(self).sparql_first_variable matches Some(var) && (
            if old(self).params.one_row_per_item {
                final(self).results.deep_view() == spec_gen_orpi(
                    &*final(self),
                    var@,
                    spec_subjects(old(self).sparql_rows@, var@),
                )
            } else {
                final(self).results.deep_view() == spec_gen_per_row(&*final(self), var@, 0)
            })),
            r is Err ==> *final(self) == *old(self),
    {
        let varname = match &self.sparql_first_variable {
            Some(v) => v.clone(),
            None => {
                return Err(String::from_str("load_entities: sparql_first_variable is None"));
            },
        };
        let mut results: Vec<ResultRow> = Vec::new();
        if self.params.one_row_per_item {
            let subjects = self.subject_ids(varname.as_str());
            let ghost subv = crate::configuration::spec_strs_view(subjects@);
            let n = subjects.len();
            let mut i: usize = 0;
            proof {
                assert(subv.skip(0) =~= subv);
            }
            while i < n
                invariant
                    n == subjects@.len(),
                    0 <= i <= n,
                    subv == crate::configuration::spec_strs_view(subjects@),
                    subv.len() == n,
                    varname@ == old(self).sparql_first_variable->Some_0@,
                    self == old(self),
                    results.deep_view() + spec_gen_orpi(self, varname@, subv.skip(i as int))
                        =~= spec_gen_orpi(self, varname@, subv),
                decreases n - i,
            {
                proof {
                    assert(subv.skip(i as int)[0] == subv[i as int]);
                    assert(subv[i as int] == subjects@[i as int]@);
                    assert(subv.skip(i as int).skip(1) =~= subv.skip(i as int + 1));
                }
                let id = &subjects[i];
                let idxs = self.row_indices_for_subject(varname.as_str(), id.as_str());
                if idxs.len() > 0 {
                    proof {
                        assert(crate::entity::spec_idxs_of(idxs@).len() > 0);
                    }
                    match self.get_result_row(id.as_str(), &idxs) {
                        Some(row) => {
                            let ghost rb = results.deep_view();
                            let ghost rv = row.deep_view();
                            results.push(row);
                            proof {
                                assert(results.deep_view() =~= rb.push(rv)) by {
                                    assert forall|t: int|
                                        0 <= t < results@.len() implies results.deep_view()[t]
                                        == rb.push(rv)[t] by {
                                        assert(results.deep_view()[t] == results@[
                                            t
                                        ].deep_view());
                                        if t < rb.len() {
                                            assert(rb[t] == results@[t].deep_view());
                                        }
                                    }
                                }
                                assert(rb + (seq![rv] + spec_gen_orpi(
                                    self,
                                    varname@,
                                    subv.skip(i as int + 1),
                                )) =~= results.deep_view() + spec_gen_orpi(
                                    self,
                                    varname@,
                                    subv.skip(i as int + 1),
                                ));
                            }
                        },
                        None => {},
                    }
                } else {
                    proof {
                        assert(crate::entity::spec_idxs_of(idxs@).len() == 0);
                    }
                }
                i += 1;
            }
            proof {
                assert(subv.skip(n as int) =~= Seq::<Seq<char>>::empty());
                assert(results.deep_view() + Seq::<RowView>::empty() =~= results.deep_view());
            }
        } else {
            let n = self.sparql_rows.len();
            let mut k: usize = 0;
            while k < n
                invariant
                    n == self.sparql_rows@.len(),
                    0 <= k <= n,
                    varname@ == old(self).sparql_first_variable->Some_0@,
                    self == old(self),
                    results.deep_view() + spec_gen_per_row(self, varname@, k as int)
                        =~= spec_gen_per_row(self, varname@, 0),
                decreases n - k,
            {
                let found = match self.sparql_rows[k].get(varname.as_str()) {
                    Some(SparqlValue::Entity(id)) => Some(id.clone()),
                    _ => None,
                };
                match found {
                    Some(id) => {
                        let mut one: Vec<usize> = Vec::new();
                        one.push(k);
                        proof {
                            assert(crate::entity::spec_idxs_of(one@) =~= seq![k as int]);
                        }
                        match self.get_result_row(id.as_str(), &one) {
                            Some(row) => {
                                let ghost rb = results.deep_view();
                                let ghost rv = row.deep_view();
                                results.push(row);
                                proof {
                                    assert(results.deep_view() =~= rb.push(rv)) by {
                                        assert forall|t: int|
                                            0 <= t < results@.len() implies results.deep_view()[
                                            t
                                        ] == rb.push(rv)[t] by {
                                            assert(results.deep_view()[t] == results@[
                                                t
                                            ].deep_view());
                                            if t < rb.len() {
                                                assert(rb[t] == results@[t].deep_view());
                                            }
                                        }
                                    }
                                    assert(rb + (seq![rv] + spec_gen_per_row(
                                        self,
                                        varname@,
                                        k as int + 1,
                                    )) =~= results.deep_view() + spec_gen_per_row(
                                        self,
                                        varname@,
                                        k as int + 1,
                                    ));
                                }
                            },
                            None => {},
                        }
                    },
                    None => {},
                }
                k += 1;
            }
            proof {
                assert(spec_gen_per_row(self, varname@, n as int) =~= Seq::<RowView>::empty());
                assert(results.deep_view() + Seq::<RowView>::empty() =~= results.deep_view());
            }
        }
        let ghost pre = *self;
        self.results = results;
        proof {
            if self.params.one_row_per_item {
                lemma_gen_orpi_same(
                    &pre,
                    self,
                    varname@,
                    spec_subjects(self.sparql_rows@, varname@),
                );
            } else {
                lemma_gen_per_row_same(&pre, self, varname@, 0);
            }
        }
        Ok(())
    }
}


/// Lexicographic insertion of one string into a sorted list.
pub open spec fn spec_insert_str(x: Seq<char>, s: Seq<Seq<char>>) -> Seq<Seq<char>>
    decreases s.len(),
{
    if s.len() == 0 {
        seq![x]
    } else if crate::sort::lex_le(x, s[0]) && !crate::sort::lex_le(s[0], x) {
        seq![x] + s
    } else {
        seq![s[0]] + spec_insert_str(x, s.skip(1))
    }
}

/// Lexicographic insertion sort of a string list, stable.
pub open spec fn spec_sort_strs(s: Seq<Seq<char>>) -> Seq<Seq<char>>
    decreases s.len(),
{
    if s.len() == 0 {
        Seq::empty()
    } else {
        spec_insert_str(s.last(), spec_sort_strs(s.drop_last()))
    }
}

proof fn lemma_insert_str_at(x: Seq<char>, s: Seq<Seq<char>>, k: int)
    requires
        0 <= k <= s.len(),
        forall|j: int|
            0 <= j < k ==> !(crate::sort::lex_le(x, #[trigger] s[j]) && !crate::sort::lex_le(
                s[j],
                x,
            )),
        k < s.len() ==> crate::sort::lex_le(x, s[k]) && !crate::sort::lex_le(s[k], x),
    ensures
        spec_insert_str(x, s) == s.take(k) + seq![x] + s.skip(k),
    decreases k,
{
    if s.len() == 0 {
        assert(s.take(0) + seq![x] + s.skip(0) =~= seq![x]);
    } else if k == 0 {
        assert(s.take(0) + seq![x] + s.skip(0) =~= seq![x] + s);
    } else {
        lemma_insert_str_at(x, s.skip(1), k - 1);
        assert(forall|j: int|
            0 <= j < k - 1 ==> s.skip(1)[j] == #[trigger] s[j + 1]);
        assert(seq![s[0]] + (s.skip(1).take(k - 1) + seq![x] + s.skip(1).skip(k - 1)) =~= s.take(
            k,
        ) + seq![x] + s.skip(k));
    }
}

/// Sort a string list lexicographically, stably.
pub fn sort_strings(v: Vec<String>) -> (r: Vec<String>)
    ensures
        crate::configuration::spec_strs_view(r@) == spec_sort_strs(
            crate::configuration::spec_strs_view(v@),
        ),
{
    let ghost origv = v@;
    let ghost orig = crate::configuration::spec_strs_view(origv);
    let mut rest = v;
    let mut out: Vec<String> = Vec::new();
    proof {
        assert(orig.take(0) =~= Seq::<Seq<char>>::empty());
        assert(crate::configuration::spec_strs_view(out@) =~= spec_sort_strs(orig.take(0)));
        assert(rest@ =~= origv.skip(0));
    }
    while rest.len() > 0
        invariant
            rest@ =~= origv.skip(origv.len() - rest@.len()),
            rest@.len() <= origv.len(),
            crate::configuration::spec_strs_view(out@) == spec_sort_strs(
                orig.take(origv.len() - rest@.len()),
            ),
        decreases rest@.len(),
    {
        let ghost done = origv.len() - rest@.len();
        let ghost head = rest@;
        let x = rest.remove(0);
        let ghost xv = x@;
        proof {
            assert(x == head[0]);
            assert(head[0] == origv[done]);
            assert(xv == orig[done]);
            assert(rest@ =~= origv.skip(done + 1)) by {
                assert(rest@ =~= head.skip(1));
            }
        }
        let ghost outv = crate::configuration::spec_strs_view(out@);
        let n = out.len();
        let mut k: usize = 0;
        while k < n && !str_lt(x.as_str(), out[k].as_str())
            invariant
                n == out@.len(),
                0 <= k <= n,
                outv == crate::configuration::spec_strs_view(out@),
                outv.len() == n,
                forall|j: int|
                    0 <= j < k ==> !(crate::sort::lex_le(xv, #[trigger] outv[j])
                        && !crate::sort::lex_le(outv[j], xv)),
            decreases n - k,
        {
            proof {
                assert(outv[k as int] == out@[k as int]@);
            }
            k += 1;
        }
        proof {
            if k < n {
                assert(outv[k as int] == out@[k as int]@);
            }
            lemma_insert_str_at(xv, outv, k as int);
        }
        let ghost outb = out@;
        out.insert(k, x);
        proof {
            assert(out@ == outb.insert(k as int, x));
            assert(crate::configuration::spec_strs_view(out@) =~= outv.take(k as int) + seq![xv]
                + outv.skip(k as int)) by {
                assert forall|t: int|
                    0 <= t < out@.len() implies crate::configuration::spec_strs_view(out@)[t] == (
                    outv.take(k as int) + seq![xv] + outv.skip(k as int))[t] by {
                    if t < k {
                        assert(out@[t] == outb[t]);
                    } else if t == k {
                    } else {
                        assert(out@[t] == outb[t - 1]);
                    }
                }
            }
            assert(orig.take(done + 1).drop_last() =~= orig.take(done));
            assert(orig.take(done + 1).last() == orig[done]);
            assert(crate::configuration::spec_strs_view(out@) == spec_sort_strs(
                orig.take(done + 1),
            ));
        }
    }
    proof {
        assert(orig.take(origv.len() as int) =~= orig);
    }
    out
}

/// Whether `a` is strictly below `b` lexicographically.
fn str_lt(a: &str, b: &str) -> (r: bool)
    ensures
        r == (crate::sort::lex_le(a@, b@) && !crate::sort::lex_le(b@, a@)),
{
    let le1 = crate::sort::lex_le_str(a, b);
    let le2 = crate::sort::lex_le_str(b, a);
    le1 && !le2
}

/// Adjacent duplicates removed.
pub open spec fn spec_dedup_adj(s: Seq<Seq<char>>) -> Seq<Seq<char>>
    decreases s.len(),
{
    if s.len() == 0 {
        Seq::empty()
    } else if s.len() == 1 {
        s
    } else if s[s.len() - 1] == s[s.len() - 2] {
        spec_dedup_adj(s.drop_last())
    } else {
        spec_dedup_adj(s.drop_last()).push(s.last())
    }
}

/// Remove adjacent duplicate strings, as deduplication after sorting.
pub fn dedup_adjacent(v: Vec<String>) -> (r: Vec<String>)
    ensures
        crate::configuration::spec_strs_view(r@) == spec_dedup_adj(
            crate::configuration::spec_strs_view(v@),
        ),
{
    let ghost sv = crate::configuration::spec_strs_view(v@);
    let n = v.len();
    let mut out: Vec<String> = Vec::new();
    let mut i: usize = 0;
    proof {
        assert(sv.take(0) =~= Seq::<Seq<char>>::empty());
        assert(crate::configuration::spec_strs_view(out@) =~= spec_dedup_adj(sv.take(0)));
    }
    while i < n
        invariant
            n == v@.len(),
            0 <= i <= n,
            sv == crate::configuration::spec_strs_view(v@),
            sv.len() == n,
            crate::configuration::spec_strs_view(out@) == spec_dedup_adj(sv.take(i as int)),
        decreases n - i,
    {
        proof {
            assert(sv.take(i as int + 1).drop_last() =~= sv.take(i as int));
            assert(sv.take(i as int + 1).last() == sv[i as int]);
            assert(sv[i as int] == v@[i as int]@);
            if i > 0 {
                assert(sv.take(i as int + 1)[i as int - 1] == sv[i as int - 1]);
            }
        }
        let keep = if i == 0 {
            true
        } else {
            !str_eq(v[i].as_str(), v[i - 1].as_str())
        };
        if keep {
            let ghost outb = out@;
            out.push(v[i].clone());
            proof {
                assert(crate::configuration::spec_strs_view(out@)
                    =~= crate::configuration::spec_strs_view(outb).push(v@[i as int]@));
                if i > 0 {
                    assert(spec_dedup_adj(sv.take(i as int + 1)) == spec_dedup_adj(
                        sv.take(i as int),
                    ).push(sv[i as int]));
                } else {
                    assert(sv.take(1int) =~= seq![sv[0]]);
                    assert(spec_dedup_adj(sv.take(1int)) =~= seq![sv[0]]);
                    assert(crate::configuration::spec_strs_view(out@) =~= seq![sv[0]]);
                }
            }
        } else {
            proof {
                assert(spec_dedup_adj(sv.take(i as int + 1)) == spec_dedup_adj(
                    sv.take(i as int),
                ));
            }
        }
        i += 1;
    }
    proof {
        assert(sv.take(n as int) =~= sv);
    }
    out
}

/// The index of the last space in a label, if any.
pub open spec fn spec_find_last_space(s: Seq<char>) -> Option<int>
    decreases s.len(),
{
    if s.len() == 0 {
        None
    } else if s.last() == ' ' {
        Some(s.len() - 1)
    } else {
        spec_find_last_space(s.drop_last())
    }
}

/// The family-name key of a label: the part after the last space, a
/// comma, then the part before it; a label without a space keys as
/// itself.
pub open spec fn spec_family_name(label: Seq<char>) -> Seq<char> {
    match spec_find_last_space(label) {
        Some(i) => label.skip(i + 1) + ", "@ + label.take(i),
        None => label,
    }
}

/// The key a label sorts under in family-name mode.
pub fn family_name_key(label: &str) -> (r: String)
    ensures
        r@ == spec_family_name(label@),
{
    let len = label.unicode_len();
    let mut i: usize = len;
    proof {
        assert(label@.take(len as int) =~= label@);
    }
    while i > 0 && label.get_char(i - 1) != ' '
        invariant
            len == label@.len(),
            0 <= i <= len,
            spec_find_last_space(label@.take(i as int)) == spec_find_last_space(label@),
            forall|j: int| i <= j < len ==> label@[j] != ' ',
        decreases i,
    {
        proof {
            assert(label@.take(i as int).drop_last() =~= label@.take(i as int - 1));
            assert(label@.take(i as int).last() == label@[i as int - 1]);
        }
        i -= 1;
    }
    if i == 0 {
        proof {
            assert(label@.take(0) =~= Seq::<char>::empty());
            assert(spec_find_last_space(label@) is None);
        }
        return String::from_str(label);
    }
    proof {
        assert(label@.take(i as int).last() == label@[i as int - 1]);
        assert(spec_find_last_space(label@) == Some(i as int - 1));
    }
    let last = label.substring_char(i, len);
    let first = label.substring_char(0, i - 1);
    let mut r = String::from_str(last);
    r.append(", ");
    r.append(first);
    proof {
        assert(last@ =~= label@.skip(i as int));
        assert(first@ =~= label@.take(i as int - 1));
    }
    r
}

/// The datatype the sort property declares, `String` when unknown.
pub open spec fn spec_datatype_for(l: &ListeriaList, prop: Seq<char>) -> SnakDataType {
    match spec_cached(&l.entities, prop) {
        Some(e) => {
            if e.kind == crate::entity::EntityKind::Property {
                match e.datatype {
                    Some(dt) => dt,
                    None => SnakDataType::StringType,
                }
            } else {
                SnakDataType::StringType
            }
        },
        None => SnakDataType::StringType,
    }
}

/// The sort (and section) key a row takes from a property: the first
/// filtered statement's value as text, empty when there is none.
pub open spec fn spec_sortkey_prop(l: &ListeriaList, id: Seq<char>, prop: Seq<char>) -> Seq<
    char,
> {
    match spec_cached(&l.entities, id) {
        Some(e) => {
            let idxs = spec_filtered_claim_idxs(
                e.statements,
                prop,
                l.page_params.config.prefer_preferred,
            );
            if idxs.len() > 0 && 0 <= idxs[0] < e.statements.len() {
                spec_snak_sort_text(e.statements[idxs[0]].value)
            } else {
                Seq::empty()
            }
        },
        None => Seq::empty(),
    }
}

/// The sort key one row takes under the configured sort mode.
pub open spec fn spec_row_key(l: &ListeriaList, row: RowView) -> Seq<char> {
    match l.params.sort {
        SortMode::Unsorted => row.sortkey,
        SortMode::Label => spec_label_fallback(l, row.entity_id),
        SortMode::FamilyName => spec_family_name(spec_label_fallback(l, row.entity_id)),
        SortMode::Property(p) => spec_sortkey_prop(l, row.entity_id, p@),
    }
}

/// The rows with their sort keys assigned.
pub open spec fn spec_keyed_rows(l: &ListeriaList, rows: Seq<RowView>) -> Seq<RowView> {
    Seq::new(
        rows.len(),
        |i: int|
            RowView {
                entity_id: rows[i].entity_id,
                cells: rows[i].cells,
                sortkey: spec_row_key(l, rows[i]),
                section: rows[i].section,
            },
    )
}

/// The datatype sorting compares under.
pub open spec fn spec_sort_dt(l: &ListeriaList) -> SnakDataType {
    match l.params.sort {
        SortMode::Property(p) => spec_datatype_for(l, p@),
        _ => SnakDataType::StringType,
    }
}

impl ListeriaList {
    /// The declared datatype of a property entity, `String` when unknown.
    pub fn get_datatype_for_property(&self, prop: &str) -> (r: SnakDataType)
        ensures
            r == spec_datatype_for(self, prop@),
    {
        self.entities.get_datatype_for_property(prop)
    }

    /// The sort key a subject takes from a property.
    pub fn get_sortkey_prop(&self, prop: &str, entity_id: &str) -> (r: String)
        ensures
            r@ == spec_sortkey_prop(self, entity_id@, prop@),
    {
        match self.entities.get_entity(entity_id) {
            Some(e) => {
                let idxs = e.filtered_claim_indices(
                    prop,
                    self.page_params.config.prefer_preferred,
                );
                if idxs.len() > 0 {
                    proof {
                        assert(crate::entity::spec_idxs_of(idxs@)[0] == idxs@[0] as int);
                        assert(e.deep_view().statements[idxs@[0] as int] == e.statements@[
                            idxs@[0] as int
                        ].deep_view());
                    }
                    let st = &e.statements[idxs[0]];
                    snak_sort_text(&st.value)
                } else {
                    String::new()
                }
            },
            None => String::new(),
        }
    }

    /// Sort the rows: assign each row its key under the configured mode,
    /// sort stably ascending under the datatype-aware order, and for
    /// descending order reverse the whole ascending result, tie groups
    /// included.
    #[verifier::rlimit(100)]
    pub fn process_sort_results(&mut self) -> (r: Result<(), String>)
        ensures
            r is Ok,
            old(self).params.sort is Unsorted ==> *final(self) == *old(self),
            !(old(self).params.sort is Unsorted) ==> {
                &&& unchanged_but_results(old(self), final(self))
                &&& final(self).results.deep_view() == (if old(self).params.sort_order
                    == SortOrder::Descending {
                    spec_stable_sort(
                        spec_keyed_rows(&*old(self), old(self).results.deep_view()),
                        spec_sort_dt(&*old(self)),
                    ).reverse()
                } else {
                    spec_stable_sort(
                        spec_keyed_rows(&*old(self), old(self).results.deep_view()),
                        spec_sort_dt(&*old(self)),
                    )
                })
            },
    {
        let is_unsorted = match &self.params.sort {
            SortMode::Unsorted => true,
            _ => false,
        };
        if is_unsorted {
            return Ok(());
        }
        let dt = match &self.params.sort {
            SortMode::Property(p) => self.get_datatype_for_property(p.clone().as_str()),
            _ => SnakDataType::StringType,
        };
        let mut rows: Vec<ResultRow> = Vec::new();
        std::mem::swap(&mut rows, &mut self.results);
        let ghost origv = rows@;
        let ghost orig = spec_rows_views(origv);
        let ghost keyed = spec_keyed_rows(&*old(self), orig);
        let mut out: Vec<ResultRow> = Vec::new();
        proof {
            crate::row::lemma_rows_views(rows);
            assert(out.deep_view() =~= keyed.take(0));
            assert(rows@ =~= origv.skip(0));
        }
        while rows.len() > 0
            invariant
                rows@ =~= origv.skip(origv.len() - rows@.len()),
                rows@.len() <= origv.len(),
                keyed == spec_keyed_rows(&*old(self), orig),
                orig == spec_rows_views(origv),
                keyed.len() == origv.len(),
                spec_same_core(&*old(self), self),
                self.params == old(self).params,
                out.deep_view() =~= keyed.take(origv.len() - rows@.len()),
            decreases rows@.len(),
        {
            let ghost done = origv.len() - rows@.len();
            let ghost head = rows@;
            let mut row = rows.remove(0);
            proof {
                assert(row == head[0]);
                assert(head[0] == origv[done]);
                assert(rows@ =~= origv.skip(done + 1)) by {
                    assert(rows@ =~= head.skip(1));
                }
            }
            let key = match &self.params.sort {
                SortMode::Unsorted => String::new(),
                SortMode::Label => self.get_label_with_fallback(row.entity_id.clone().as_str()),
                SortMode::FamilyName => {
                    let lab = self.get_label_with_fallback(row.entity_id.clone().as_str());
                    family_name_key(lab.as_str())
                },
                SortMode::Property(p) => self.get_sortkey_prop(
                    p.clone().as_str(),
                    row.entity_id.clone().as_str(),
                ),
            };
            proof {
                lemma_label_same(&*old(self), self, origv[done].deep_view().entity_id);
                assert(key@ == spec_row_key(&*old(self), origv[done].deep_view()));
            }
            row.set_sortkey(key);
            let ghost outb = out.deep_view();
            let ghost rv = row.deep_view();
            out.push(row);
            proof {
                assert(out.deep_view() =~= outb.push(rv)) by {
                    assert forall|t: int|
                        0 <= t < out@.len() implies out.deep_view()[t] == outb.push(rv)[t] by {
                        assert(out.deep_view()[t] == out@[t].deep_view());
                        if t < outb.len() {
                            assert(outb[t] == out@[t].deep_view());
                        }
                    }
                }
                assert(rv == keyed[done]) by {
                    assert(orig[done] == origv[done].deep_view());
                }
                assert(out.deep_view() =~= keyed.take(done + 1));
            }
        }
        proof {
            assert(keyed.take(origv.len() as int) =~= keyed);
            assert(out.deep_view() =~= keyed);
        }
        let sorted = sort_rows(out, &dt);
        let descending = match self.params.sort_order {
            SortOrder::Descending => true,
            _ => false,
        };
        if descending {
            let reversed = reverse_rows(sorted);
            self.results = reversed;
        } else {
            self.results = sorted;
        }
        Ok(())
    }

    /// Remove every row whose subject already has a page on the run's
    /// wiki; only in the links mode that shows red links alone.
    pub fn process_redlinks_only(&mut self) -> (r: Result<(), String>)
        ensures
            r is Ok,
            old(self).params.links != LinksType::RedOnly ==> *final(self) == *old(self),
            old(self).params.links == LinksType::RedOnly ==> {
                &&& unchanged_but_results(old(self), final(self))
                &&& final(self).results.deep_view() == old(self).results.deep_view().filter(
                    |row: RowView| spec_is_redlink(&*old(self), row.entity_id),
                )
            },
    {
        let is_red_only = match &self.params.links {
            LinksType::RedOnly => true,
            _ => false,
        };
        if !is_red_only {
            return Ok(());
        }
        proof {
            reveal(Seq::filter);
        }
        let ghost pred = |row: RowView| spec_is_redlink(&*old(self), row.entity_id);
        let mut rows: Vec<ResultRow> = Vec::new();
        std::mem::swap(&mut rows, &mut self.results);
        let ghost origv = rows@;
        let ghost orig = spec_rows_views(origv);
        let mut out: Vec<ResultRow> = Vec::new();
        proof {
            crate::row::lemma_rows_views(rows);
            assert(orig.take(0) =~= Seq::<RowView>::empty());
            assert(out.deep_view() =~= orig.take(0).filter(pred));
        }
        while rows.len() > 0
            invariant
                rows@ =~= origv.skip(origv.len() - rows@.len()),
                rows@.len() <= origv.len(),
                orig == spec_rows_views(origv),
                spec_same_core(&*old(self), self),
                self.params == old(self).params,
                pred == (|row: RowView| spec_is_redlink(&*old(self), row.entity_id)),
                out.deep_view() =~= orig.take(origv.len() - rows@.len()).filter(pred),
            decreases rows@.len(),
        {
            let ghost done = origv.len() - rows@.len();
            let ghost head = rows@;
            let row = rows.remove(0);
            proof {
                assert(row == head[0]);
                assert(head[0] == origv[done]);
                assert(rows@ =~= origv.skip(done + 1)) by {
                    assert(rows@ =~= head.skip(1));
                }
                assert(orig.take(done + 1).drop_last() =~= orig.take(done));
                assert(orig.take(done + 1).last() == orig[done]);
                assert(orig[done] == origv[done].deep_view());
            }
            let keep = {
                let has_sitelink = match self.entities.get_entity(row.entity_id.clone().as_str())
                {
                    Some(e) => {
                        match e.sitelink_title(self.page_params.wiki.as_str()) {
                            Some(_) => true,
                            None => false,
                        }
                    },
                    None => false,
                };
                !has_sitelink
            };
            proof {
                assert(keep == pred(orig[done]));
            }
            if keep {
                let ghost outb = out.deep_view();
                let ghost rv = row.deep_view();
                out.push(row);
                proof {
                    assert(out.deep_view() =~= outb.push(rv)) by {
                        assert forall|t: int|
                            0 <= t < out@.len() implies out.deep_view()[t] == outb.push(rv)[t]
                            by {
                            assert(out.deep_view()[t] == out@[t].deep_view());
                            if t < outb.len() {
                                assert(outb[t] == out@[t].deep_view());
                            }
                        }
                    }
                    assert(out.deep_view() =~= orig.take(done + 1).filter(pred));
                }
            } else {
                proof {
                    assert(out.deep_view() =~= orig.take(done + 1).filter(pred));
                }
            }
        }
        proof {
            assert(orig.take(origv.len() as int) =~= orig);
        }
        self.results = out;
        Ok(())
    }
}

/// Whether a subject has no page on the run's wiki: a missing entity
/// record also counts as red.
pub open spec fn spec_is_redlink(l: &ListeriaList, id: Seq<char>) -> bool {
    match spec_cached(&l.entities, id) {
        Some(e) => spec_pair_lookup(e.sitelinks, l.page_params.wiki@) is None,
        None => true,
    }
}

/// Label fallback reads only the core fields.
proof fn lemma_label_same(a: &ListeriaList, b: &ListeriaList, id: Seq<char>)
    requires
        spec_same_core(a, b),
    ensures
        spec_label_fallback(a, id) == spec_label_fallback(b, id),
{
}


/// The distinct strings of a list, in first-appearance order.
pub open spec fn spec_distinct_strs(s: Seq<Seq<char>>) -> Seq<Seq<char>>
    decreases s.len(),
{
    if s.len() == 0 {
        Seq::empty()
    } else {
        let pre = spec_distinct_strs(s.drop_last());
        if pre.contains(s.last()) {
            pre
        } else {
            pre.push(s.last())
        }
    }
}

/// The first index of a string in a list, or the length when absent.
pub open spec fn spec_index_of_str(s: Seq<Seq<char>>, x: Seq<char>, from: int) -> int
    decreases s.len() - from,
{
    if from < 0 || from >= s.len() {
        s.len() as int
    } else if s[from] == x {
        from
    } else {
        spec_index_of_str(s, x, from + 1)
    }
}

/// The section name of each row under a section property.
pub open spec fn spec_section_names(l: &ListeriaList, rows: Seq<RowView>, p: Seq<char>) -> Seq<
    Seq<char>,
> {
    Seq::new(rows.len(), |i: int| spec_sortkey_prop(l, rows[i].entity_id, p))
}

/// The named sections: the distinct section names that reach the minimum
/// row count, sorted; every other row falls into the reserved bucket
/// after them.
pub open spec fn spec_valid_sections(names: Seq<Seq<char>>, min: u64) -> Seq<Seq<char>> {
    spec_sort_strs(
        spec_distinct_strs(names).filter(
            |nm: Seq<char>| names.filter(|x: Seq<char>| x == nm).len() >= min,
        ),
    )
}

impl ListeriaList {
    /// Assign sections by the configured section property: rows whose
    /// section name reaches the minimum count share a named bucket, ids
    /// follow the sorted name order, and every other row gets the
    /// reserved bucket after the named ones.
    #[verifier::rlimit(100)]
    pub fn process_assign_sections(&mut self) -> (r: Result<(), String>)
        ensures
            old(self).params.section is NoSections ==> r is Ok && *final(self) == *old(self),
            old(self).params.section is SparqlVariable ==> (r matches Err(e) && e@
                == "SPARQL variable section type not supported yet"@ && *final(self) == *old(
                self,
            )),
            old(self).params.section matches SectionType::Property(p) ==> r is Ok && {
                let names = spec_section_names(&*old(self), old(self).results.deep_view(), p@);
                let valid = spec_valid_sections(names, old(self).params.min_section);
                &&& crate::configuration::spec_strs_view(final(self).section_names@)
                    == valid.push("Misc"@)
                &&& final(self).results.deep_view().len() == old(self).results.deep_view().len()
                &&& forall|i: int|
                    0 <= i < old(self).results.deep_view().len()
                        ==> #[trigger] final(self).results.deep_view()[i] == (RowView {
                        section: (if valid.contains(names[i]) {
                            spec_index_of_str(valid, names[i], 0)
                        } else {
                            valid.len() as int
                        }),
                        ..old(self).results.deep_view()[i]
                    })
                &&& b_unchanged_sections(old(self), final(self))
            },
    {
        let prop = match &self.params.section {
            SectionType::Property(p) => p.clone(),
            SectionType::SparqlVariable(_v) => {
                return Err(
                    String::from_str("SPARQL variable section type not supported yet"),
                );
            },
            SectionType::NoSections => {
                return Ok(());
            },
        };
        let ghost oldrows = self.results.deep_view();
        let ghost names = spec_section_names(&*old(self), oldrows, prop@);
        // the section name of each row, aligned with the rows
        let n = self.results.len();
        let mut row_names: Vec<String> = Vec::new();
        let mut i: usize = 0;
        proof {
            crate::row::lemma_rows_views(self.results);
        }
        while i < n
            invariant
                n == self.results@.len(),
                0 <= i <= n,
                *self == *old(self),
                prop@ == old(self).params.section->Property_0@,
                oldrows == self.results.deep_view(),
                names == spec_section_names(&*old(self), oldrows, prop@),
                names.len() == n,
                row_names@.len() == i,
                forall|k: int| 0 <= k < i ==> #[trigger] row_names@[k]@ == names[k],
            decreases n - i,
        {
            proof {
                assert(oldrows[i as int] == self.results@[i as int].deep_view());
            }
            let key = self.get_sortkey_prop(
                prop.as_str(),
                self.results[i].entity_id.clone().as_str(),
            );
            row_names.push(key);
            i += 1;
        }
        proof {
            assert(crate::configuration::spec_strs_view(row_names@) =~= names);
        }
        // distinct names, in first-appearance order
        let ghost namesv = crate::configuration::spec_strs_view(row_names@);
        let mut distinct: Vec<String> = Vec::new();
        let mut i2: usize = 0;
        proof {
            assert(namesv.take(0) =~= Seq::<Seq<char>>::empty());
            assert(crate::configuration::spec_strs_view(distinct@) =~= spec_distinct_strs(
                namesv.take(0),
            ));
        }
        while i2 < n
            invariant
                n == row_names@.len(),
                0 <= i2 <= n,
                namesv == crate::configuration::spec_strs_view(row_names@),
                namesv.len() == n,
                crate::configuration::spec_strs_view(distinct@) == spec_distinct_strs(
                    namesv.take(i2 as int),
                ),
            decreases n - i2,
        {
            proof {
                assert(namesv.take(i2 as int + 1).drop_last() =~= namesv.take(i2 as int));
                assert(namesv.take(i2 as int + 1).last() == namesv[i2 as int]);
                assert(namesv[i2 as int] == row_names@[i2 as int]@);
                let dv = crate::configuration::spec_strs_view(distinct@);
                if dv.contains(namesv[i2 as int]) {
                    let t0 = choose|t: int|
                        0 <= t < dv.len() && dv[t] == namesv[i2 as int];
                    assert(distinct@[t0]@ == namesv[i2 as int]);
                }
                if exists|t: int|
                    0 <= t < distinct@.len() && #[trigger] distinct@[t]@ == namesv[i2 as int] {
                    let t0 = choose|t: int|
                        0 <= t < distinct@.len() && #[trigger] distinct@[t]@ == namesv[
                            i2 as int
                        ];
                    assert(dv[t0] == namesv[i2 as int]);
                    assert(dv.contains(namesv[i2 as int]));
                }
            }
            if !vec_contains_str(&distinct, row_names[i2].as_str()) {
                let ghost db = distinct@;
                distinct.push(row_names[i2].clone());
                proof {
                    assert(crate::configuration::spec_strs_view(distinct@)
                        =~= crate::configuration::spec_strs_view(db).push(namesv[i2 as int]));
                }
            }
            i2 += 1;
        }
        proof {
            assert(namesv.take(n as int) =~= namesv);
        }
        // keep names that reach the minimum count
        let ghost pred = |nm: Seq<char>| namesv.filter(|x: Seq<char>| x == nm).len()
            >= old(self).params.min_section;
        let ghost dview = crate::configuration::spec_strs_view(distinct@);
        let dn = distinct.len();
        let mut kept: Vec<String> = Vec::new();
        let mut i3: usize = 0;
        proof {
            reveal(Seq::filter);
            assert(dview.take(0) =~= Seq::<Seq<char>>::empty());
            assert(crate::configuration::spec_strs_view(kept@) =~= dview.take(0).filter(pred));
        }
        while i3 < dn
            invariant
                dn == distinct@.len(),
                0 <= i3 <= dn,
                *self == *old(self),
                dview == crate::configuration::spec_strs_view(distinct@),
                dview.len() == dn,
                namesv == crate::configuration::spec_strs_view(row_names@),
                pred == (|nm: Seq<char>| namesv.filter(|x: Seq<char>| x == nm).len() >= old(
                    self,
                ).params.min_section),
                crate::configuration::spec_strs_view(kept@) == dview.take(i3 as int).filter(
                    pred,
                ),
            decreases dn - i3,
        {
            proof {
                reveal(Seq::filter);
                assert(dview.take(i3 as int + 1).drop_last() =~= dview.take(i3 as int));
                assert(dview.take(i3 as int + 1).last() == dview[i3 as int]);
                assert(dview[i3 as int] == distinct@[i3 as int]@);
            }
            let cnt = count_matching(&row_names, distinct[i3].as_str());
            if cnt >= self.params.min_section {
                let ghost kb = kept@;
                kept.push(distinct[i3].clone());
                proof {
                    assert(crate::configuration::spec_strs_view(kept@)
                        =~= crate::configuration::spec_strs_view(kb).push(dview[i3 as int]));
                    assert(pred(dview[i3 as int]));
                    assert(crate::configuration::spec_strs_view(kept@) =~= dview.take(
                        i3 as int + 1,
                    ).filter(pred));
                }
            } else {
                proof {
                    assert(!pred(dview[i3 as int]));
                    assert(crate::configuration::spec_strs_view(kept@) =~= dview.take(
                        i3 as int + 1,
                    ).filter(pred));
                }
            }
            i3 += 1;
        }
        proof {
            assert(dview.take(dn as int) =~= dview);
        }
        // sorted names get ids in order, the reserved bucket comes last
        let valid = sort_strings(kept);
        let ghost validv = crate::configuration::spec_strs_view(valid@);
        let misc_id = valid.len();
        let mut section_names = clone_strs(&valid);
        section_names.push(String::from_str("Misc"));
        proof {
            assert(crate::configuration::spec_strs_view(section_names@) =~= validv.push(
                "Misc"@,
            ));
        }
        self.section_names = section_names;
        // assign each row its section id
        let mut rows: Vec<ResultRow> = Vec::new();
        std::mem::swap(&mut rows, &mut self.results);
        let ghost origv = rows@;
        let mut out: Vec<ResultRow> = Vec::new();
        let mut i4: usize = 0;
        proof {
            crate::row::lemma_rows_views(rows);
            assert(spec_rows_views(origv) == oldrows);
        }
        while rows.len() > 0
            invariant
                rows@ =~= origv.skip(origv.len() - rows@.len()),
                rows@.len() <= origv.len(),
                origv.len() == n,
                spec_rows_views(origv) == oldrows,
                oldrows.len() == n,
                names.len() == n,
                namesv == names,
                row_names@.len() == n,
                forall|k: int| 0 <= k < n ==> #[trigger] row_names@[k]@ == names[k],
                validv == crate::configuration::spec_strs_view(valid@),
                misc_id == validv.len(),
                valid@.len() == misc_id,
                out@.len() == origv.len() - rows@.len(),
                i4 as int == origv.len() - rows@.len(),
                forall|k: int|
                    0 <= k < out@.len() ==> #[trigger] out@[k].deep_view() == (RowView {
                        section: (if validv.contains(names[k]) {
                            spec_index_of_str(validv, names[k], 0)
                        } else {
                            validv.len() as int
                        }),
                        ..oldrows[k]
                    }),
            decreases rows@.len(),
        {
            let ghost done = origv.len() - rows@.len();
            let ghost head = rows@;
            let mut row = rows.remove(0);
            proof {
                assert(row == head[0]);
                assert(head[0] == origv[done]);
                assert(rows@ =~= origv.skip(done + 1)) by {
                    assert(rows@ =~= head.skip(1));
                }
                assert(oldrows[done] == origv[done].deep_view());
            }
            let idx = find_index(&valid, row_names[i4].as_str());
            proof {
                assert(row_names@[done]@ == names[done]);
            }
            let section_id = if idx < misc_id {
                idx
            } else {
                misc_id
            };
            proof {
                if validv.contains(names[done]) {
                    lemma_index_of_found(validv, names[done]);
                } else {
                    lemma_index_of_missing(validv, names[done]);
                }
            }
            row.set_section(section_id);
            let ghost rv = row.deep_view();
            out.push(row);
            i4 += 1;
            proof {
                assert(out@[out@.len() - 1].deep_view() == rv);
            }
        }
        self.results = out;
        proof {
            assert(self.results.deep_view().len() == oldrows.len());
            assert forall|i5: int|
                0 <= i5 < oldrows.len() implies #[trigger] self.results.deep_view()[i5] == (
            RowView {
                section: (if validv.contains(names[i5]) {
                    spec_index_of_str(validv, names[i5], 0)
                } else {
                    validv.len() as int
                }),
                ..oldrows[i5]
            }) by {
                assert(self.results.deep_view()[i5] == self.results@[i5].deep_view());
            }
        }
        Ok(())
    }
}

/// Everything sectioning leaves alone.
pub open spec fn b_unchanged_sections(a: &ListeriaList, b: &ListeriaList) -> bool {
    &&& b.page_params == a.page_params
    &&& b.template == a.template
    &&& b.columns == a.columns
    &&& b.params == a.params
    &&& b.sparql_rows == a.sparql_rows
    &&& b.sparql_first_variable == a.sparql_first_variable
    &&& b.entities == a.entities
    &&& b.shadow_files == a.shadow_files
    &&& b.local_page_cache == a.local_page_cache
}

/// A found string's first index is in range and correct.
proof fn lemma_index_of_found(s: Seq<Seq<char>>, x: Seq<char>)
    requires
        s.contains(x),
    ensures
        0 <= spec_index_of_str(s, x, 0) < s.len(),
    decreases s.len(),
{
    lemma_index_of_found_from(s, x, 0);
}

proof fn lemma_index_of_found_from(s: Seq<Seq<char>>, x: Seq<char>, from: int)
    requires
        0 <= from <= s.len(),
        exists|t: int| from <= t < s.len() && s[t] == x,
    ensures
        from <= spec_index_of_str(s, x, from) < s.len(),
    decreases s.len() - from,
{
    if from < s.len() && s[from] != x {
        let t0 = choose|t: int| from <= t < s.len() && s[t] == x;
        assert(from + 1 <= t0);
        lemma_index_of_found_from(s, x, from + 1);
    }
}

proof fn lemma_index_of_missing(s: Seq<Seq<char>>, x: Seq<char>)
    requires
        !s.contains(x),
    ensures
        spec_index_of_str(s, x, 0) == s.len(),
    decreases s.len(),
{
    lemma_index_of_missing_from(s, x, 0);
}

proof fn lemma_index_of_missing_from(s: Seq<Seq<char>>, x: Seq<char>, from: int)
    requires
        0 <= from <= s.len(),
        forall|t: int| 0 <= t < s.len() ==> s[t] != x,
    ensures
        spec_index_of_str(s, x, from) == s.len(),
    decreases s.len() - from,
{
    if from < s.len() {
        lemma_index_of_missing_from(s, x, from + 1);
    }
}

/// How many entries of `names` equal `nm`.
fn count_matching(names: &Vec<String>, nm: &str) -> (r: u64)
    ensures
        r == crate::configuration::spec_strs_view(names@).filter(
            |x: Seq<char>| x == nm@,
        ).len(),
{
    let ghost sv = crate::configuration::spec_strs_view(names@);
    let ghost pred = |x: Seq<char>| x == nm@;
    let n = names.len();
    let mut cnt: u64 = 0;
    let mut i: usize = 0;
    proof {
        reveal(Seq::filter);
        assert(sv.take(0) =~= Seq::<Seq<char>>::empty());
    }
    while i < n
        invariant
            n == names@.len(),
            0 <= i <= n,
            sv == crate::configuration::spec_strs_view(names@),
            sv.len() == n,
            pred == (|x: Seq<char>| x == nm@),
            cnt == sv.take(i as int).filter(pred).len(),
            cnt <= i,
        decreases n - i,
    {
        proof {
            reveal(Seq::filter);
            assert(sv.take(i as int + 1).drop_last() =~= sv.take(i as int));
            assert(sv.take(i as int + 1).last() == sv[i as int]);
            assert(sv[i as int] == names@[i as int]@);
            sv.take(i as int).lemma_filter_len(pred);
        }
        if str_eq(names[i].as_str(), nm) {
            cnt = cnt + 1;
        }
        i += 1;
    }
    proof {
        assert(sv.take(n as int) =~= sv);
    }
    cnt
}

/// The first index of `x` in `v`, or the length when absent.
fn find_index(v: &Vec<String>, x: &str) -> (r: usize)
    ensures
        r as int == spec_index_of_str(crate::configuration::spec_strs_view(v@), x@, 0),
        r <= v@.len(),
{
    let ghost sv = crate::configuration::spec_strs_view(v@);
    let n = v.len();
    let mut i: usize = 0;
    while i < n
        invariant
            n == v@.len(),
            0 <= i <= n,
            sv == crate::configuration::spec_strs_view(v@),
            sv.len() == n,
            spec_index_of_str(sv, x@, i as int) == spec_index_of_str(sv, x@, 0),
        decreases n - i,
    {
        proof {
            assert(sv[i as int] == v@[i as int]@);
        }
        if str_eq(v[i].as_str(), x) {
            return i;
        }
        i += 1;
    }
    n
}


/// The local link a cached subject yields: its page title on the run's
/// wiki and a label falling back to that title.
pub open spec fn spec_local_link(l: &ListeriaList, id: Seq<char>) -> Option<PartView> {
    match spec_cached(&l.entities, id) {
        Some(e) => match spec_pair_lookup(e.sitelinks, l.page_params.wiki@) {
            Some(page) => Some(
                PartView::LocalLink(
                    page,
                    match spec_pair_lookup(e.labels, l.page_params.language@) {
                        Some(lab) => lab,
                        None => page,
                    },
                    false,
                ),
            ),
            None => None,
        },
        None => None,
    }
}

/// One part after localization: a localizable entity reference becomes a
/// local link when the subject has a page here; nested lists are
/// localized within.
pub open spec fn spec_localize_part(l: &ListeriaList, p: PartView) -> PartView
    decreases p,
{
    match p {
        PartView::Entity(id, true) => match spec_local_link(l, id) {
            Some(ll) => ll,
            None => p,
        },
        PartView::SnakList(parts) => PartView::SnakList(spec_localize_parts(l, parts)),
        _ => p,
    }
}

pub open spec fn spec_localize_parts(l: &ListeriaList, parts: Seq<PartView>) -> Seq<PartView>
    decreases parts,
{
    if parts.len() == 0 {
        Seq::empty()
    } else {
        seq![spec_localize_part(l, parts[0])] + spec_localize_parts(l, parts.skip(1))
    }
}

/// One part with the shadowed file names stripped: a shadowed file
/// becomes nothing; nested lists are stripped within.
pub open spec fn spec_strip_parts(parts: Seq<PartView>, shadow: Seq<Seq<char>>) -> Seq<PartView>
    decreases parts,
{
    if parts.len() == 0 {
        Seq::empty()
    } else {
        let rest = spec_strip_parts(parts.skip(1), shadow);
        match parts[0] {
            PartView::File(name) => if shadow.contains(name) {
                rest
            } else {
                seq![parts[0]] + rest
            },
            PartView::SnakList(inner) => seq![PartView::SnakList(spec_strip_parts(inner, shadow))]
                + rest,
            _ => seq![parts[0]] + rest,
        }
    }
}

/// The file names a part list references, in order.
pub open spec fn spec_file_names(parts: Seq<PartView>) -> Seq<Seq<char>>
    decreases parts,
{
    if parts.len() == 0 {
        Seq::empty()
    } else {
        let rest = spec_file_names(parts.skip(1));
        match parts[0] {
            PartView::File(name) => seq![name] + rest,
            PartView::SnakList(inner) => spec_file_names(inner) + rest,
            _ => rest,
        }
    }
}

/// The entity ids a part list references and may need loaded: localizable
/// entity references and external-id properties, nested lists included.
pub open spec fn spec_parts_entity_ids(parts: Seq<PartView>) -> Seq<Seq<char>>
    decreases parts,
{
    if parts.len() == 0 {
        Seq::empty()
    } else {
        let rest = spec_parts_entity_ids(parts.skip(1));
        match parts[0] {
            PartView::Entity(id, true) => seq![id] + rest,
            PartView::ExternalId(prop, _id) => seq![prop] + rest,
            PartView::SnakList(inner) => spec_parts_entity_ids(inner) + rest,
            _ => rest,
        }
    }
}

fn localize_part(l: &ListeriaList, p: &ResultCellPart) -> (r: ResultCellPart)
    ensures
        r.deep_view() == spec_localize_part(l, p.deep_view()),
    decreases p,
{
    match p {
        ResultCellPart::Entity(id, true) => {
            match l.entities.get_entity(id.as_str()) {
                Some(e) => {
                    match e.sitelink_title(l.page_params.wiki.as_str()) {
                        Some(page) => {
                            let label = match e.label_in_locale(l.page_params.language.as_str()) {
                                Some(lab) => lab.clone(),
                                None => page.clone(),
                            };
                            ResultCellPart::LocalLink(page.clone(), label, false)
                        },
                        None => p.duplicate(),
                    }
                },
                None => p.duplicate(),
            }
        },
        ResultCellPart::SnakList(parts) => {
            let n = parts.len();
            let mut out: Vec<ResultCellPart> = Vec::new();
            let mut i: usize = 0;
            proof {
                crate::row::lemma_part_views_index(parts@);
                lemma_localize_parts_index(l, spec_part_views(parts@));
                assert(spec_part_views(out@) =~= Seq::<PartView>::empty());
                assert(spec_localize_parts(l, spec_part_views(parts@)).take(0)
                    =~= Seq::<PartView>::empty());
            }
            while i < n
                invariant
                    n == parts@.len(),
                    0 <= i <= n,
                    spec_part_views(out@) =~= spec_localize_parts(
                        l,
                        spec_part_views(parts@),
                    ).take(i as int),
                    spec_localize_parts(l, spec_part_views(parts@)).len() == n,
                decreases n - i,
            {
                proof {
                    crate::row::lemma_part_views_index(parts@);
                    lemma_localize_parts_index(l, spec_part_views(parts@));
                }
                let ghost pb = out@;
                let x = localize_part(l, &parts[i]);
                let ghost xg = x;
                out.push(x);
                proof {
                    assert(out@ == pb.push(xg));
                    crate::row::lemma_part_views_push(pb, xg);
                    assert(spec_part_views(out@) =~= spec_localize_parts(
                        l,
                        spec_part_views(parts@),
                    ).take(i as int + 1));
                }
                i += 1;
            }
            proof {
                lemma_localize_parts_index(l, spec_part_views(parts@));
                assert(spec_localize_parts(l, spec_part_views(parts@)).take(n as int)
                    =~= spec_localize_parts(l, spec_part_views(parts@)));
            }
            ResultCellPart::SnakList(out)
        },
        _ => p.duplicate(),
    }
}

/// Element-wise reading of localization.
proof fn lemma_localize_parts_index(l: &ListeriaList, parts: Seq<PartView>)
    ensures
        spec_localize_parts(l, parts).len() == parts.len(),
        forall|i: int|
            0 <= i < parts.len() ==> #[trigger] spec_localize_parts(l, parts)[i]
                == spec_localize_part(l, parts[i]),
    decreases parts,
{
    if parts.len() > 0 {
        lemma_localize_parts_index(l, parts.skip(1));
        assert forall|i: int|
            0 <= i < parts.len() implies #[trigger] spec_localize_parts(l, parts)[i]
            == spec_localize_part(l, parts[i]) by {
            if i > 0 {
                assert(parts.skip(1)[i - 1] == parts[i]);
            }
        }
    }
}

impl ListeriaList {
    /// Turn localizable entity references into local links wherever the
    /// subject has a page on the run's wiki.
    #[verifier::rlimit(60)]
    pub fn process_items_to_local_links(&mut self) -> (r: Result<(), String>)
        ensures
            r is Ok,
            unchanged_but_results(old(self), final(self)),
            final(self).results.deep_view().len() == old(self).results.deep_view().len(),
            forall|i: int|
                0 <= i < old(self).results.deep_view().len()
                    ==> #[trigger] final(self).results.deep_view()[i] == (RowView {
                    cells: Seq::new(
                        old(self).results.deep_view()[i].cells.len(),
                        |c: int|
                            spec_localize_parts(
                                &*old(self),
                                old(self).results.deep_view()[i].cells[c],
                            ),
                    ),
                    ..old(self).results.deep_view()[i]
                }),
    {
        let mut rows: Vec<ResultRow> = Vec::new();
        std::mem::swap(&mut rows, &mut self.results);
        let ghost origv = rows@;
        let ghost orig = spec_rows_views(origv);
        let mut out: Vec<ResultRow> = Vec::new();
        proof {
            crate::row::lemma_rows_views(rows);
        }
        while rows.len() > 0
            invariant
                rows@ =~= origv.skip(origv.len() - rows@.len()),
                rows@.len() <= origv.len(),
                orig == spec_rows_views(origv),
                spec_same_core(&*old(self), self),
                out@.len() == origv.len() - rows@.len(),
                forall|k: int|
                    0 <= k < out@.len() ==> #[trigger] out@[k].deep_view() == (RowView {
                        cells: Seq::new(
                            orig[k].cells.len(),
                            |c: int| spec_localize_parts(&*old(self), orig[k].cells[c]),
                        ),
                        ..orig[k]
                    }),
            decreases rows@.len(),
        {
            let ghost done = origv.len() - rows@.len();
            let ghost head = rows@;
            let mut row = rows.remove(0);
            proof {
                assert(row == head[0]);
                assert(head[0] == origv[done]);
                assert(rows@ =~= origv.skip(done + 1)) by {
                    assert(rows@ =~= head.skip(1));
                }
                assert(orig[done] == origv[done].deep_view());
            }
            let ghost rv = row.deep_view();
            let n = row.cells.len();
            let mut cells: Vec<ResultCell> = Vec::new();
            while cells.len() < n
                invariant
                    n == row.cells@.len(),
                    cells@.len() <= n,
                    rv == row.deep_view(),
                    spec_same_core(&*old(self), self),
                    forall|c: int|
                        0 <= c < cells@.len() ==> #[trigger] cells@[c].deep_view()
                            == spec_localize_parts(&*old(self), rv.cells[c]),
                decreases n - cells@.len(),
            {
                let c = cells.len();
                let cell = &row.cells[c];
                let n2 = cell.parts.len();
                let mut parts: Vec<ResultCellPart> = Vec::new();
                proof {
                    crate::row::lemma_part_views_index(cell.parts@);
                    lemma_localize_parts_index(&*old(self), cell.deep_view());
                    assert(rv.cells[c as int] == row.cells@[c as int].deep_view());
                    assert(spec_part_views(parts@) =~= Seq::<PartView>::empty());
                }
                while parts.len() < n2
                    invariant
                        n2 == cell.parts@.len(),
                        parts@.len() <= n2,
                        rv == row.deep_view(),
                        spec_same_core(&*old(self), self),
                        cell == &row.cells@[cells@.len() as int],
                        cells@.len() < n,
                        n == row.cells@.len(),
                        rv.cells[cells@.len() as int] == cell.deep_view(),
                        spec_part_views(parts@) =~= spec_localize_parts(
                            &*old(self),
                            cell.deep_view(),
                        ).take(parts@.len() as int),
                        spec_localize_parts(&*old(self), cell.deep_view()).len() == n2,
                    decreases n2 - parts@.len(),
                {
                    let k2 = parts.len();
                    proof {
                        crate::row::lemma_part_views_index(cell.parts@);
                        lemma_localize_parts_index(&*old(self), cell.deep_view());
                    }
                    let ghost pb = parts@;
                    let x = localize_part(self, &cell.parts[k2]);
                    let ghost xg = x;
                    proof {
                        lemma_localize_part_same(&*old(self), self, cell.parts@[
                            k2 as int
                        ].deep_view());
                    }
                    parts.push(x);
                    proof {
                        assert(parts@ == pb.push(xg));
                        crate::row::lemma_part_views_push(pb, xg);
                        assert(spec_part_views(parts@) =~= spec_localize_parts(
                            &*old(self),
                            cell.deep_view(),
                        ).take(pb.len() as int + 1));
                    }
                }
                proof {
                    assert(spec_localize_parts(&*old(self), cell.deep_view()).take(n2 as int)
                        =~= spec_localize_parts(&*old(self), cell.deep_view()));
                }
                cells.push(ResultCell::new_from_parts(parts));
            }
            let ghost cellsv = cells.deep_view();
            row.set_cells(cells);
            let ghost rv2 = row.deep_view();
            out.push(row);
            proof {
                assert(out@[out@.len() - 1].deep_view() == rv2);
                assert(rv2.cells =~= Seq::new(
                    orig[done].cells.len(),
                    |c: int| spec_localize_parts(&*old(self), orig[done].cells[c]),
                )) by {
                    assert forall|c: int|
                        0 <= c < orig[done].cells.len() implies rv2.cells[c]
                        == spec_localize_parts(&*old(self), orig[done].cells[c]) by {
                        assert(rv2.cells[c] == cellsv[c]);
                    }
                }
                assert(out@[out@.len() - 1].deep_view() == (RowView {
                    cells: Seq::new(
                        orig[done].cells.len(),
                        |c: int| spec_localize_parts(&*old(self), orig[done].cells[c]),
                    ),
                    ..orig[done]
                }));
            }
        }
        self.results = out;
        proof {
            assert forall|i: int|
                0 <= i < orig.len() implies #[trigger] self.results.deep_view()[i] == (RowView {
                cells: Seq::new(
                    orig[i].cells.len(),
                    |c: int| spec_localize_parts(&*old(self), orig[i].cells[c]),
                ),
                ..orig[i]
            }) by {
                assert(self.results.deep_view()[i] == self.results@[i].deep_view());
            }
        }
        Ok(())
    }
}

/// Localization reads only the core fields.
proof fn lemma_localize_part_same(a: &ListeriaList, b: &ListeriaList, p: PartView)
    requires
        spec_same_core(a, b),
    ensures
        spec_localize_part(a, p) == spec_localize_part(b, p),
    decreases p,
{
    match p {
        PartView::SnakList(parts) => {
            lemma_localize_parts_same(a, b, parts);
        },
        _ => {},
    }
}

proof fn lemma_localize_parts_same(a: &ListeriaList, b: &ListeriaList, parts: Seq<PartView>)
    requires
        spec_same_core(a, b),
    ensures
        spec_localize_parts(a, parts) == spec_localize_parts(b, parts),
    decreases parts,
{
    if parts.len() > 0 {
        lemma_localize_part_same(a, b, parts[0]);
        lemma_localize_parts_same(a, b, parts.skip(1));
    }
}


/// The file names one row's cells reference at the top level, in order.
pub open spec fn spec_row_files(row: RowView) -> Seq<Seq<char>> {
    spec_cells_files(row.cells)
}

pub open spec fn spec_cells_files(cells: Seq<Seq<PartView>>) -> Seq<Seq<char>>
    decreases cells.len(),
{
    if cells.len() == 0 {
        Seq::empty()
    } else {
        spec_top_files(cells[0]) + spec_cells_files(cells.skip(1))
    }
}

pub open spec fn spec_top_files(parts: Seq<PartView>) -> Seq<Seq<char>>
    decreases parts.len(),
{
    if parts.len() == 0 {
        Seq::empty()
    } else {
        let rest = spec_top_files(parts.skip(1));
        match parts[0] {
            PartView::File(name) => seq![name] + rest,
            _ => rest,
        }
    }
}

/// The file names all rows reference, in order.
pub open spec fn spec_all_files(rows: Seq<RowView>) -> Seq<Seq<char>>
    decreases rows.len(),
{
    if rows.len() == 0 {
        Seq::empty()
    } else {
        spec_row_files(rows[0]) + spec_all_files(rows.skip(1))
    }
}

/// The entity ids one row's cells reference at the top level: every
/// entity reference, as the red-link pass reads them.
pub open spec fn spec_top_entity_ids(parts: Seq<PartView>) -> Seq<Seq<char>>
    decreases parts.len(),
{
    if parts.len() == 0 {
        Seq::empty()
    } else {
        let rest = spec_top_entity_ids(parts.skip(1));
        match parts[0] {
            PartView::Entity(id, _l) => seq![id] + rest,
            _ => rest,
        }
    }
}

pub open spec fn spec_cells_entity_ids(cells: Seq<Seq<PartView>>) -> Seq<Seq<char>>
    decreases cells.len(),
{
    if cells.len() == 0 {
        Seq::empty()
    } else {
        spec_top_entity_ids(cells[0]) + spec_cells_entity_ids(cells.skip(1))
    }
}

pub open spec fn spec_all_entity_ids(rows: Seq<RowView>) -> Seq<Seq<char>>
    decreases rows.len(),
{
    if rows.len() == 0 {
        Seq::empty()
    } else {
        spec_cells_entity_ids(rows[0].cells) + spec_all_entity_ids(rows.skip(1))
    }
}

/// Whether a row has a location part in any cell, at the top level.
pub open spec fn spec_has_location(row: RowView) -> bool {
    exists|c: int, p: int|
        0 <= c < row.cells.len() && 0 <= p < row.cells[c].len() && (#[trigger] row.cells[c][p])
            is Location
}

/// The subject ids of the rows that hold a location, in row order, one
/// entry per such row.
pub open spec fn spec_location_subjects(rows: Seq<RowView>) -> Seq<Seq<char>>
    decreases rows.len(),
{
    if rows.len() == 0 {
        Seq::empty()
    } else {
        let rest = spec_location_subjects(rows.skip(1));
        if spec_has_location(rows[0]) {
            seq![rows[0].entity_id] + rest
        } else {
            rest
        }
    }
}

/// Whether the row holds a location part in any cell.
pub fn row_has_location(row: &ResultRow) -> (r: bool)
    ensures
        r == spec_has_location(row.deep_view()),
{
    let ghost rv = row.deep_view();
    let m = row.cells.len();
    let mut c: usize = 0;
    while c < m
        invariant
            m == row.cells@.len(),
            rv == row.deep_view(),
            rv.cells.len() == m,
            0 <= c <= m,
            forall|c2: int, p2: int|
                0 <= c2 < c && 0 <= p2 < rv.cells[c2].len() ==> !((#[trigger] rv.cells[c2][p2])
                    is Location),
        decreases m - c,
    {
        proof {
            assert(rv.cells[c as int] == row.cells@[c as int].deep_view());
        }
        let cell = &row.cells[c];
        let pn = cell.parts.len();
        let mut p: usize = 0;
        proof {
            crate::row::lemma_part_views_index(cell.parts@);
        }
        while p < pn
            invariant
                pn == cell.parts@.len(),
                cell == &row.cells@[c as int],
                c < m,
                m == row.cells@.len(),
                rv == row.deep_view(),
                rv.cells.len() == m,
                rv.cells[c as int] == cell.deep_view(),
                0 <= p <= pn,
                rv.cells[c as int].len() == pn,
                forall|p2: int| 0 <= p2 < p ==> !((#[trigger] rv.cells[c as int][p2])
                    is Location),
            decreases pn - p,
        {
            proof {
                crate::row::lemma_part_views_index(cell.parts@);
                assert(rv.cells[c as int][p as int] == cell.parts@[p as int].deep_view());
            }
            match &cell.parts[p] {
                ResultCellPart::Location(_lat, _lon, _r) => {
                    return true;
                },
                _ => {},
            }
            p += 1;
        }
        c += 1;
    }
    proof {
        if spec_has_location(rv) {
            let (c2, p2) = choose|c2: int, p2: int|
                0 <= c2 < rv.cells.len() && 0 <= p2 < rv.cells[c2].len() && (#[trigger] rv.cells[
                    c2
                ][p2]) is Location;
            assert(false);
        }
    }
    false
}

impl ListeriaList {
    /// Whether the run's wiki asks for the shadow-file check at all.
    pub fn needs_shadow_check(&self) -> (r: bool)
        ensures
            r == crate::configuration::spec_strs_view(
                self.page_params.config.shadow_images_check@,
            ).contains(self.page_params.wiki@),
    {
        self.page_params.config.check_for_shadow_images(&self.page_params.wiki)
    }

    /// Whether the run's wiki asks for region enrichment.
    pub fn do_get_regions(&self) -> (r: bool)
        ensures
            r == crate::configuration::spec_strs_view(
                self.page_params.config.location_regions@,
            ).contains(self.page_params.wiki@),
    {
        crate::configuration::strs_contain(
            self.page_params.config.location_regions(),
            self.page_params.wiki.as_str(),
        )
    }

    /// The distinct file names the rows reference, sorted: the list whose
    /// repositories the embedding program probes.
    pub fn collect_file_names(&self) -> (r: Vec<String>)
        ensures
            crate::configuration::spec_strs_view(r@) == spec_dedup_adj(
                spec_sort_strs(spec_all_files(self.results.deep_view())),
            ),
    {
        let ghost rowsv = self.results.deep_view();
        let n = self.results.len();
        let mut files: Vec<String> = Vec::new();
        let mut i: usize = 0;
        proof {
            crate::row::lemma_rows_views(self.results);
            assert(rowsv.skip(0) =~= rowsv);
            assert(crate::configuration::spec_strs_view(files@) + spec_all_files(rowsv)
                =~= spec_all_files(rowsv));
        }
        while i < n
            invariant
                n == self.results@.len(),
                0 <= i <= n,
                rowsv == self.results.deep_view(),
                rowsv.len() == n,
                crate::configuration::spec_strs_view(files@) + spec_all_files(
                    rowsv.skip(i as int),
                ) =~= spec_all_files(rowsv),
            decreases n - i,
        {
            proof {
                assert(rowsv.skip(i as int)[0] == rowsv[i as int]);
                assert(rowsv[i as int] == self.results@[i as int].deep_view());
                assert(rowsv.skip(i as int).skip(1) =~= rowsv.skip(i as int + 1));
            }
            let row = &self.results[i];
            let ghost cellsv = row.deep_view().cells;
            let m = row.cells.len();
            let mut c: usize = 0;
            proof {
                assert(cellsv.skip(0) =~= cellsv);
                assert(crate::configuration::spec_strs_view(files@) + (spec_cells_files(cellsv)
                    + spec_all_files(rowsv.skip(i as int + 1))) =~= spec_all_files(rowsv));
            }
            while c < m
                invariant
                    m == row.cells@.len(),
                    0 <= c <= m,
                    row == &self.results@[i as int],
                    i < n,
                    n == self.results@.len(),
                    rowsv == self.results.deep_view(),
                    rowsv.len() == n,
                    cellsv == row.deep_view().cells,
                    cellsv.len() == m,
                    crate::configuration::spec_strs_view(files@) + (spec_cells_files(
                        cellsv.skip(c as int),
                    ) + spec_all_files(rowsv.skip(i as int + 1))) =~= spec_all_files(rowsv),
                decreases m - c,
            {
                proof {
                    assert(cellsv.skip(c as int)[0] == cellsv[c as int]);
                    assert(cellsv[c as int] == row.cells@[c as int].deep_view());
                    assert(cellsv.skip(c as int).skip(1) =~= cellsv.skip(c as int + 1));
                }
                let cell = &row.cells[c];
                let ghost partsv = cell.deep_view();
                let pn = cell.parts.len();
                let mut p: usize = 0;
                proof {
                    crate::row::lemma_part_views_index(cell.parts@);
                    assert(partsv.skip(0) =~= partsv);
                    assert(crate::configuration::spec_strs_view(files@) + ((spec_top_files(
                        partsv,
                    ) + spec_cells_files(cellsv.skip(c as int + 1))) + spec_all_files(
                        rowsv.skip(i as int + 1),
                    )) =~= spec_all_files(rowsv));
                }
                while p < pn
                    invariant
                        pn == cell.parts@.len(),
                        0 <= p <= pn,
                        cell == &self.results@[i as int].cells@[c as int],
                        c < m,
                        i < n,
                        m == self.results@[i as int].cells@.len(),
                        n == self.results@.len(),
                        rowsv == self.results.deep_view(),
                        rowsv.len() == n,
                        cellsv == self.results@[i as int].deep_view().cells,
                        cellsv.len() == m,
                        partsv == cell.deep_view(),
                        partsv.len() == pn,
                        crate::configuration::spec_strs_view(files@) + ((spec_top_files(
                            partsv.skip(p as int),
                        ) + spec_cells_files(cellsv.skip(c as int + 1))) + spec_all_files(
                            rowsv.skip(i as int + 1),
                        )) =~= spec_all_files(rowsv),
                    decreases pn - p,
                {
                    proof {
                        crate::row::lemma_part_views_index(cell.parts@);
                        assert(partsv.skip(p as int)[0] == partsv[p as int]);
                        assert(partsv[p as int] == cell.parts@[p as int].deep_view());
                        assert(partsv.skip(p as int).skip(1) =~= partsv.skip(p as int + 1));
                    }
                    match &cell.parts[p] {
                        ResultCellPart::File(name) => {
                            let ghost fb = files@;
                            files.push(name.clone());
                            proof {
                                assert(crate::configuration::spec_strs_view(files@)
                                    =~= crate::configuration::spec_strs_view(fb).push(
                                    partsv[p as int]->File_0,
                                ));
                            }
                        },
                        _ => {},
                    }
                    p += 1;
                }
                c += 1;
            }
            i += 1;
        }
        proof {
            assert(rowsv.skip(n as int) =~= Seq::<RowView>::empty());
            assert(spec_all_files(rowsv.skip(n as int)) =~= Seq::<Seq<char>>::empty());
            assert(crate::configuration::spec_strs_view(files@) =~= spec_all_files(rowsv));
        }
        let sorted = sort_strings(files);
        dedup_adjacent(sorted)
    }

    /// Record the shadowed files among the probed ones and strip them
    /// from every cell: a file is shadowed when its probe did not report
    /// the shared repository.
    #[verifier::rlimit(60)]
    pub fn set_shadow_files(&mut self, files: &Vec<String>, shadow_flags: &Vec<bool>)
        requires
            files@.len() == shadow_flags@.len(),
        ensures
            unchanged_but_shadow(old(self), final(self)),
            crate::configuration::spec_strs_view(final(self).shadow_files@) == spec_sort_strs(
                spec_flagged(
                    crate::configuration::spec_strs_view(files@),
                    shadow_flags@,
                ),
            ),
            final(self).results.deep_view().len() == old(self).results.deep_view().len(),
            forall|i: int|
                0 <= i < old(self).results.deep_view().len()
                    ==> #[trigger] final(self).results.deep_view()[i] == (RowView {
                    cells: Seq::new(
                        old(self).results.deep_view()[i].cells.len(),
                        |c: int|
                            spec_strip_parts(
                                old(self).results.deep_view()[i].cells[c],
                                spec_sort_strs(
                                    spec_flagged(
                                        crate::configuration::spec_strs_view(files@),
                                        shadow_flags@,
                                    ),
                                ),
                            ),
                    ),
                    ..old(self).results.deep_view()[i]
                }),
    {
        let n = files.len();
        let mut flagged: Vec<String> = Vec::new();
        let mut i: usize = 0;
        proof {
            assert(crate::configuration::spec_strs_view(flagged@) =~= spec_flagged(
                crate::configuration::spec_strs_view(files@).take(0),
                shadow_flags@.take(0),
            ));
        }
        while i < n
            invariant
                n == files@.len(),
                n == shadow_flags@.len(),
                0 <= i <= n,
                crate::configuration::spec_strs_view(flagged@) == spec_flagged(
                    crate::configuration::spec_strs_view(files@).take(i as int),
                    shadow_flags@.take(i as int),
                ),
            decreases n - i,
        {
            proof {
                let fv = crate::configuration::spec_strs_view(files@);
                assert(fv.take(i as int + 1).drop_last() =~= fv.take(i as int));
                assert(shadow_flags@.take(i as int + 1).drop_last() =~= shadow_flags@.take(
                    i as int,
                ));
                assert(fv.take(i as int + 1).last() == fv[i as int]);
                assert(shadow_flags@.take(i as int + 1).last() == shadow_flags@[i as int]);
                assert(fv[i as int] == files@[i as int]@);
            }
            if shadow_flags[i] {
                let ghost fb = flagged@;
                flagged.push(files[i].clone());
                proof {
                    assert(crate::configuration::spec_strs_view(flagged@)
                        =~= crate::configuration::spec_strs_view(fb).push(files@[i as int]@));
                }
            }
            i += 1;
        }
        proof {
            assert(crate::configuration::spec_strs_view(files@).take(n as int)
                =~= crate::configuration::spec_strs_view(files@));
            assert(shadow_flags@.take(n as int) =~= shadow_flags@);
        }
        let shadow = sort_strings(flagged);
        let ghost shadowv = crate::configuration::spec_strs_view(shadow@);
        // strip the recorded files from every cell
        let mut rows: Vec<ResultRow> = Vec::new();
        std::mem::swap(&mut rows, &mut self.results);
        let ghost origv = rows@;
        let ghost orig = spec_rows_views(origv);
        let mut out: Vec<ResultRow> = Vec::new();
        proof {
            crate::row::lemma_rows_views(rows);
        }
        while rows.len() > 0
            invariant
                rows@ =~= origv.skip(origv.len() - rows@.len()),
                rows@.len() <= origv.len(),
                orig == spec_rows_views(origv),
                shadowv == crate::configuration::spec_strs_view(shadow@),
                spec_same_core(&*old(self), self),
                out@.len() == origv.len() - rows@.len(),
                forall|k: int|
                    0 <= k < out@.len() ==> #[trigger] out@[k].deep_view() == (RowView {
                        cells: Seq::new(
                            orig[k].cells.len(),
                            |c: int| spec_strip_parts(orig[k].cells[c], shadowv),
                        ),
                        ..orig[k]
                    }),
            decreases rows@.len(),
        {
            let ghost done = origv.len() - rows@.len();
            let ghost head = rows@;
            let mut row = rows.remove(0);
            proof {
                assert(row == head[0]);
                assert(head[0] == origv[done]);
                assert(rows@ =~= origv.skip(done + 1)) by {
                    assert(rows@ =~= head.skip(1));
                }
                assert(orig[done] == origv[done].deep_view());
            }
            let ghost rv = row.deep_view();
            let m = row.cells.len();
            let mut cells: Vec<ResultCell> = Vec::new();
            while cells.len() < m
                invariant
                    m == row.cells@.len(),
                    cells@.len() <= m,
                    rv == row.deep_view(),
                    shadowv == crate::configuration::spec_strs_view(shadow@),
                    forall|c: int|
                        0 <= c < cells@.len() ==> #[trigger] cells@[c].deep_view()
                            == spec_strip_parts(rv.cells[c], shadowv),
                decreases m - cells@.len(),
            {
                let c = cells.len();
                proof {
                    assert(rv.cells[c as int] == row.cells@[c as int].deep_view());
                }
                let parts = strip_parts(&row.cells[c].parts, &shadow);
                cells.push(ResultCell::new_from_parts(parts));
            }
            let ghost cellsv = cells.deep_view();
            row.set_cells(cells);
            let ghost rv2 = row.deep_view();
            out.push(row);
            proof {
                assert(out@[out@.len() - 1].deep_view() == rv2);
                assert(rv2.cells =~= Seq::new(
                    orig[done].cells.len(),
                    |c: int| spec_strip_parts(orig[done].cells[c], shadowv),
                )) by {
                    assert forall|c: int|
                        0 <= c < orig[done].cells.len() implies rv2.cells[c] == spec_strip_parts(
                        orig[done].cells[c],
                        shadowv,
                    ) by {
                        assert(rv2.cells[c] == cellsv[c]);
                    }
                }
            }
        }
        self.results = out;
        self.shadow_files = shadow;
        proof {
            assert forall|i2: int|
                0 <= i2 < orig.len() implies #[trigger] self.results.deep_view()[i2] == (
            RowView {
                cells: Seq::new(
                    orig[i2].cells.len(),
                    |c: int| spec_strip_parts(orig[i2].cells[c], shadowv),
                ),
                ..orig[i2]
            }) by {
                assert(self.results.deep_view()[i2] == self.results@[i2].deep_view());
            }
        }
    }
}

/// The files whose flag is set, in order.
pub open spec fn spec_flagged(files: Seq<Seq<char>>, flags: Seq<bool>) -> Seq<Seq<char>>
    decreases files.len(),
{
    if files.len() == 0 || flags.len() < files.len() {
        Seq::empty()
    } else if flags[files.len() - 1] {
        spec_flagged(files.drop_last(), flags.drop_last()).push(files.last())
    } else {
        spec_flagged(files.drop_last(), flags.drop_last())
    }
}

/// Everything the shadow pass leaves alone.
pub open spec fn unchanged_but_shadow(a: &ListeriaList, b: &ListeriaList) -> bool {
    &&& b.page_params == a.page_params
    &&& b.template == a.template
    &&& b.columns == a.columns
    &&& b.params == a.params
    &&& b.sparql_rows == a.sparql_rows
    &&& b.sparql_first_variable == a.sparql_first_variable
    &&& b.entities == a.entities
    &&& b.local_page_cache == a.local_page_cache
    &&& b.section_names == a.section_names
}

/// Strip the shadowed file names out of a part list, nested lists
/// included.
fn strip_parts(parts: &Vec<ResultCellPart>, shadow: &Vec<String>) -> (r: Vec<ResultCellPart>)
    ensures
        spec_part_views(r@) == spec_strip_parts(
            spec_part_views(parts@),
            crate::configuration::spec_strs_view(shadow@),
        ),
    decreases parts,
{
    let ghost pv = spec_part_views(parts@);
    let ghost sh = crate::configuration::spec_strs_view(shadow@);
    let n = parts.len();
    let mut out: Vec<ResultCellPart> = Vec::new();
    let mut i: usize = 0;
    proof {
        crate::row::lemma_part_views_index(parts@);
        assert(pv.skip(0) =~= pv);
        assert(spec_part_views(out@) =~= Seq::<PartView>::empty());
        assert(spec_part_views(out@) + spec_strip_parts(pv, sh) =~= spec_strip_parts(pv, sh));
    }
    while i < n
        invariant
            n == parts@.len(),
            0 <= i <= n,
            pv == spec_part_views(parts@),
            pv.len() == n,
            sh == crate::configuration::spec_strs_view(shadow@),
            spec_part_views(out@) + spec_strip_parts(pv.skip(i as int), sh) =~= spec_strip_parts(
                pv,
                sh,
            ),
        decreases n - i,
    {
        proof {
            crate::row::lemma_part_views_index(parts@);
            assert(pv.skip(i as int)[0] == pv[i as int]);
            assert(pv[i as int] == parts@[i as int].deep_view());
            assert(pv.skip(i as int).skip(1) =~= pv.skip(i as int + 1));
        }
        match &parts[i] {
            ResultCellPart::File(name) => {
                proof {
                    if sh.contains(name@) {
                        let t0 = choose|t: int| 0 <= t < sh.len() && sh[t] == name@;
                        assert(shadow@[t0]@ == name@);
                    }
                    if exists|t: int|
                        0 <= t < shadow@.len() && #[trigger] shadow@[t]@ == name@ {
                        let t0 = choose|t: int|
                            0 <= t < shadow@.len() && #[trigger] shadow@[t]@ == name@;
                        assert(sh[t0] == name@);
                        assert(sh.contains(name@));
                    }
                }
                if !vec_contains_str(shadow, name.as_str()) {
                    let ghost pb = out@;
                    let x = ResultCellPart::File(name.clone());
                    let ghost xg = x;
                    out.push(x);
                    proof {
                        assert(out@ == pb.push(xg));
                        crate::row::lemma_part_views_push(pb, xg);
                        assert(spec_part_views(out@) + spec_strip_parts(
                            pv.skip(i as int + 1),
                            sh,
                        ) =~= spec_strip_parts(pv, sh));
                    }
                }
            },
            ResultCellPart::SnakList(inner) => {
                let stripped = strip_parts(inner, shadow);
                let ghost pb = out@;
                let x = ResultCellPart::SnakList(stripped);
                let ghost xg = x;
                out.push(x);
                proof {
                    assert(out@ == pb.push(xg));
                    crate::row::lemma_part_views_push(pb, xg);
                    assert(xg.deep_view() == PartView::SnakList(
                        spec_strip_parts(pv[i as int]->SnakList_0, sh),
                    ));
                    assert(spec_part_views(out@) + spec_strip_parts(pv.skip(i as int + 1), sh)
                        =~= spec_strip_parts(pv, sh));
                }
            },
            _ => {
                let ghost pb = out@;
                let x = parts[i].duplicate();
                let ghost xg = x;
                out.push(x);
                proof {
                    assert(out@ == pb.push(xg));
                    crate::row::lemma_part_views_push(pb, xg);
                    assert(spec_part_views(out@) + spec_strip_parts(pv.skip(i as int + 1), sh)
                        =~= spec_strip_parts(pv, sh));
                }
            },
        }
        i += 1;
    }
    proof {
        assert(pv.skip(n as int) =~= Seq::<PartView>::empty());
        assert(spec_strip_parts(pv.skip(n as int), sh) =~= Seq::<PartView>::empty());
        assert(spec_part_views(out@) + Seq::<PartView>::empty() =~= spec_part_views(out@));
    }
    out
}


/// The display labels of a sorted id list, in order, for the ids whose
/// label exists.
pub open spec fn spec_labels_of(l: &ListeriaList, ids: Seq<Seq<char>>) -> Seq<Seq<char>>
    decreases ids.len(),
{
    if ids.len() == 0 {
        Seq::empty()
    } else {
        let rest = spec_labels_of(l, ids.skip(1));
        match spec_cached(&l.entities, ids[0]) {
            Some(e) => match spec_pair_lookup(e.labels, l.page_params.language@) {
                Some(lab) => seq![lab] + rest,
                None => rest,
            },
            None => rest,
        }
    }
}

/// The best region among traversal results: the longest literal value,
/// the first of equal length winning.
pub open spec fn spec_best_region(bindings: Seq<(Seq<char>, Seq<char>)>) -> Option<Seq<char>>
    decreases bindings.len(),
{
    if bindings.len() == 0 {
        None
    } else {
        let pre = spec_best_region(bindings.drop_last());
        let last = bindings.last();
        if last.0 == "literal"@ && (match pre {
            Some(r) => last.1.len() > r.len(),
            None => last.1.len() > 0,
        }) {
            Some(last.1)
        } else {
            pre
        }
    }
}

/// First-match lookup among probed regions.
pub open spec fn spec_region_lookup(pairs: Seq<(Seq<char>, Seq<char>)>, id: Seq<char>) -> Option<
    Seq<char>,
>
    decreases pairs.len(),
{
    if pairs.len() == 0 {
        None
    } else if pairs[0].0 == id {
        Some(pairs[0].1)
    } else {
        spec_region_lookup(pairs.skip(1), id)
    }
}

/// A part with a row's resolved region applied to its locations.
pub open spec fn spec_region_part(p: PartView, region: Seq<char>) -> PartView {
    match p {
        PartView::Location(lat, lon, _old) => PartView::Location(lat, lon, Some(region)),
        _ => p,
    }
}

impl ListeriaList {
    /// The distinct entity ids the red-link pass must resolve: every
    /// entity reference in any cell, sorted.
    pub fn collect_redlink_entity_ids(&self) -> (r: Vec<String>)
        ensures
            crate::configuration::spec_strs_view(r@) == spec_dedup_adj(
                spec_sort_strs(spec_all_entity_ids(self.results.deep_view())),
            ),
    {
        let ghost rowsv = self.results.deep_view();
        let n = self.results.len();
        let mut ids: Vec<String> = Vec::new();
        let mut i: usize = 0;
        proof {
            crate::row::lemma_rows_views(self.results);
            assert(rowsv.skip(0) =~= rowsv);
            assert(crate::configuration::spec_strs_view(ids@) + spec_all_entity_ids(rowsv)
                =~= spec_all_entity_ids(rowsv));
        }
        while i < n
            invariant
                n == self.results@.len(),
                0 <= i <= n,
                rowsv == self.results.deep_view(),
                rowsv.len() == n,
                crate::configuration::spec_strs_view(ids@) + spec_all_entity_ids(
                    rowsv.skip(i as int),
                ) =~= spec_all_entity_ids(rowsv),
            decreases n - i,
        {
            proof {
                assert(rowsv.skip(i as int)[0] == rowsv[i as int]);
                assert(rowsv[i as int] == self.results@[i as int].deep_view());
                assert(rowsv.skip(i as int).skip(1) =~= rowsv.skip(i as int + 1));
            }
            let row = &self.results[i];
            let ghost cellsv = row.deep_view().cells;
            let m = row.cells.len();
            let mut c: usize = 0;
            proof {
                assert(cellsv.skip(0) =~= cellsv);
                assert(crate::configuration::spec_strs_view(ids@) + (spec_cells_entity_ids(
                    cellsv,
                ) + spec_all_entity_ids(rowsv.skip(i as int + 1))) =~= spec_all_entity_ids(
                    rowsv,
                ));
            }
            while c < m
                invariant
                    m == row.cells@.len(),
                    0 <= c <= m,
                    row == &self.results@[i as int],
                    i < n,
                    n == self.results@.len(),
                    rowsv == self.results.deep_view(),
                    rowsv.len() == n,
                    cellsv == row.deep_view().cells,
                    cellsv.len() == m,
                    crate::configuration::spec_strs_view(ids@) + (spec_cells_entity_ids(
                        cellsv.skip(c as int),
                    ) + spec_all_entity_ids(rowsv.skip(i as int + 1))) =~= spec_all_entity_ids(
                        rowsv,
                    ),
                decreases m - c,
            {
                proof {
                    assert(cellsv.skip(c as int)[0] == cellsv[c as int]);
                    assert(cellsv[c as int] == row.cells@[c as int].deep_view());
                    assert(cellsv.skip(c as int).skip(1) =~= cellsv.skip(c as int + 1));
                }
                let cell = &row.cells[c];
                let ghost partsv = cell.deep_view();
                let pn = cell.parts.len();
                let mut p: usize = 0;
                proof {
                    crate::row::lemma_part_views_index(cell.parts@);
                    assert(partsv.skip(0) =~= partsv);
                    assert(crate::configuration::spec_strs_view(ids@) + ((spec_top_entity_ids(
                        partsv,
                    ) + spec_cells_entity_ids(cellsv.skip(c as int + 1))) + spec_all_entity_ids(
                        rowsv.skip(i as int + 1),
                    )) =~= spec_all_entity_ids(rowsv));
                }
                while p < pn
                    invariant
                        pn == cell.parts@.len(),
                        0 <= p <= pn,
                        cell == &self.results@[i as int].cells@[c as int],
                        c < m,
                        i < n,
                        m == self.results@[i as int].cells@.len(),
                        n == self.results@.len(),
                        rowsv == self.results.deep_view(),
                        rowsv.len() == n,
                        cellsv == self.results@[i as int].deep_view().cells,
                        cellsv.len() == m,
                        partsv == cell.deep_view(),
                        partsv.len() == pn,
                        crate::configuration::spec_strs_view(ids@) + ((spec_top_entity_ids(
                            partsv.skip(p as int),
                        ) + spec_cells_entity_ids(cellsv.skip(c as int + 1)))
                            + spec_all_entity_ids(rowsv.skip(i as int + 1)))
                            =~= spec_all_entity_ids(rowsv),
                    decreases pn - p,
                {
                    proof {
                        crate::row::lemma_part_views_index(cell.parts@);
                        assert(partsv.skip(p as int)[0] == partsv[p as int]);
                        assert(partsv[p as int] == cell.parts@[p as int].deep_view());
                        assert(partsv.skip(p as int).skip(1) =~= partsv.skip(p as int + 1));
                    }
                    match &cell.parts[p] {
                        ResultCellPart::Entity(id, _l) => {
                            let ghost fb = ids@;
                            ids.push(id.clone());
                            proof {
                                assert(crate::configuration::spec_strs_view(ids@)
                                    =~= crate::configuration::spec_strs_view(fb).push(
                                    partsv[p as int]->Entity_0,
                                ));
                            }
                        },
                        _ => {},
                    }
                    p += 1;
                }
                c += 1;
            }
            i += 1;
        }
        proof {
            assert(rowsv.skip(n as int) =~= Seq::<RowView>::empty());
            assert(spec_all_entity_ids(rowsv.skip(n as int)) =~= Seq::<Seq<char>>::empty());
            assert(crate::configuration::spec_strs_view(ids@) =~= spec_all_entity_ids(rowsv));
        }
        let sorted = sort_strings(ids);
        dedup_adjacent(sorted)
    }

    /// The distinct display labels of the referenced entities, sorted:
    /// the pages the embedding program probes for existence.
    pub fn collect_redlink_labels(&self) -> (r: Vec<String>)
        ensures
            crate::configuration::spec_strs_view(r@) == spec_dedup_adj(
                spec_sort_strs(
                    spec_labels_of(
                        self,
                        spec_dedup_adj(
                            spec_sort_strs(spec_all_entity_ids(self.results.deep_view())),
                        ),
                    ),
                ),
            ),
    {
        let ids = self.collect_redlink_entity_ids();
        let ghost idsv = crate::configuration::spec_strs_view(ids@);
        let n = ids.len();
        let mut labels: Vec<String> = Vec::new();
        let mut i: usize = 0;
        proof {
            assert(idsv.skip(0) =~= idsv);
            assert(crate::configuration::spec_strs_view(labels@) + spec_labels_of(self, idsv)
                =~= spec_labels_of(self, idsv));
        }
        while i < n
            invariant
                n == ids@.len(),
                0 <= i <= n,
                idsv == crate::configuration::spec_strs_view(ids@),
                idsv.len() == n,
                crate::configuration::spec_strs_view(labels@) + spec_labels_of(
                    self,
                    idsv.skip(i as int),
                ) =~= spec_labels_of(self, idsv),
            decreases n - i,
        {
            proof {
                assert(idsv.skip(i as int)[0] == idsv[i as int]);
                assert(idsv[i as int] == ids@[i as int]@);
                assert(idsv.skip(i as int).skip(1) =~= idsv.skip(i as int + 1));
            }
            match self.get_local_entity_label(ids[i].as_str()) {
                Some(lab) => {
                    let ghost lb = labels@;
                    let ghost labg = lab@;
                    labels.push(lab);
                    proof {
                        assert(crate::configuration::spec_strs_view(labels@)
                            =~= crate::configuration::spec_strs_view(lb).push(labg));
                    }
                },
                None => {},
            }
            i += 1;
        }
        proof {
            assert(idsv.skip(n as int) =~= Seq::<Seq<char>>::empty());
            assert(spec_labels_of(self, idsv.skip(n as int)) =~= Seq::<Seq<char>>::empty());
            assert(crate::configuration::spec_strs_view(labels@) =~= spec_labels_of(
                self,
                idsv,
            ));
        }
        let sorted = sort_strings(labels);
        dedup_adjacent(sorted)
    }

    /// The distinct subjects whose rows hold a location, sorted: exactly
    /// the ids the region traversal must run for.
    pub fn collect_region_entity_ids(&self) -> (r: Vec<String>)
        ensures
            crate::configuration::spec_strs_view(r@) == spec_dedup_adj(
                spec_sort_strs(spec_location_subjects(self.results.deep_view())),
            ),
    {
        let ghost rowsv = self.results.deep_view();
        let n = self.results.len();
        let mut ids: Vec<String> = Vec::new();
        let mut i: usize = 0;
        proof {
            crate::row::lemma_rows_views(self.results);
            assert(rowsv.skip(0) =~= rowsv);
            assert(crate::configuration::spec_strs_view(ids@) + spec_location_subjects(rowsv)
                =~= spec_location_subjects(rowsv));
        }
        while i < n
            invariant
                n == self.results@.len(),
                0 <= i <= n,
                rowsv == self.results.deep_view(),
                rowsv.len() == n,
                crate::configuration::spec_strs_view(ids@) + spec_location_subjects(
                    rowsv.skip(i as int),
                ) =~= spec_location_subjects(rowsv),
            decreases n - i,
        {
            proof {
                assert(rowsv.skip(i as int)[0] == rowsv[i as int]);
                assert(rowsv[i as int] == self.results@[i as int].deep_view());
                assert(rowsv.skip(i as int).skip(1) =~= rowsv.skip(i as int + 1));
            }
            let row = &self.results[i];
            if row_has_location(row) {
                let ghost ib = ids@;
                ids.push(row.entity_id.clone());
                proof {
                    assert(crate::configuration::spec_strs_view(ids@)
                        =~= crate::configuration::spec_strs_view(ib).push(
                        rowsv[i as int].entity_id,
                    ));
                }
            }
            i += 1;
        }
        proof {
            assert(rowsv.skip(n as int) =~= Seq::<RowView>::empty());
            assert(spec_location_subjects(rowsv.skip(n as int)) =~= Seq::<Seq<char>>::empty());
            assert(crate::configuration::spec_strs_view(ids@) =~= spec_location_subjects(
                rowsv,
            ));
        }
        let sorted = sort_strings(ids);
        dedup_adjacent(sorted)
    }

    /// The traversal query the region of one subject is resolved with.
    pub fn region_query_for(&self, entity_id: &str) -> (r: String)
        ensures
            r@ == "SELECT ?q ?x { wd:"@ + entity_id@
                + " wdt:P131* ?q . ?q wdt:P300 ?x }"@,
    {
        let mut s = String::from_str("SELECT ?q ?x { wd:");
        s.append(entity_id);
        s.append(" wdt:P131* ?q . ?q wdt:P300 ?x }");
        s
    }

    /// The resolved region among one subject's traversal results: the
    /// longest literal value wins, the first of equal length among them.
    pub fn best_region(bindings: &Vec<(String, String)>) -> (r: Option<String>)
        ensures
            match r {
                Some(reg) => spec_best_region(spec_binding_views(bindings@)) == Some(reg@),
                None => spec_best_region(spec_binding_views(bindings@)) is None,
            },
    {
        let ghost bv = spec_binding_views(bindings@);
        let n = bindings.len();
        let mut best: Option<String> = None;
        let mut i: usize = 0;
        proof {
            assert(bv.take(0) =~= Seq::<(Seq<char>, Seq<char>)>::empty());
        }
        while i < n
            invariant
                n == bindings@.len(),
                0 <= i <= n,
                bv == spec_binding_views(bindings@),
                bv.len() == n,
                (match best {
                    Some(ref reg) => spec_best_region(bv.take(i as int)) == Some(reg@),
                    None => spec_best_region(bv.take(i as int)) is None,
                }),
            decreases n - i,
        {
            proof {
                assert(bv.take(i as int + 1).drop_last() =~= bv.take(i as int));
                assert(bv.take(i as int + 1).last() == bv[i as int]);
                assert(bv[i as int] == (bindings@[i as int].0@, bindings@[i as int].1@));
            }
            let pair = &bindings[i];
            if str_eq(pair.0.as_str(), "literal") {
                let better = match &best {
                    Some(reg) => pair.1.as_str().unicode_len() > reg.as_str().unicode_len(),
                    None => pair.1.as_str().unicode_len() > 0,
                };
                if better {
                    best = Some(pair.1.clone());
                }
            }
            i += 1;
        }
        proof {
            assert(bv.take(n as int) =~= bv);
        }
        best
    }

    /// Apply the resolved regions: every location part of a row whose
    /// subject has one gets it.
    #[verifier::rlimit(60)]
    pub fn apply_regions(&mut self, id2region: &Vec<(String, String)>)
        ensures
            unchanged_but_results(old(self), final(self)),
            final(self).results.deep_view().len() == old(self).results.deep_view().len(),
            forall|i: int|
                0 <= i < old(self).results.deep_view().len()
                    ==> #[trigger] final(self).results.deep_view()[i] == (match spec_region_lookup(
                    spec_binding_views(id2region@),
                    old(self).results.deep_view()[i].entity_id,
                ) {
                    Some(reg) => RowView {
                        cells: Seq::new(
                            old(self).results.deep_view()[i].cells.len(),
                            |c: int|
                                Seq::new(
                                    old(self).results.deep_view()[i].cells[c].len(),
                                    |p: int|
                                        spec_region_part(
                                            old(self).results.deep_view()[i].cells[c][p],
                                            reg,
                                        ),
                                ),
                        ),
                        ..old(self).results.deep_view()[i]
                    },
                    None => old(self).results.deep_view()[i],
                }),
    {
        let mut rows: Vec<ResultRow> = Vec::new();
        std::mem::swap(&mut rows, &mut self.results);
        let ghost origv = rows@;
        let ghost orig = spec_rows_views(origv);
        let ghost i2r = spec_binding_views(id2region@);
        let mut out: Vec<ResultRow> = Vec::new();
        proof {
            crate::row::lemma_rows_views(rows);
        }
        while rows.len() > 0
            invariant
                rows@ =~= origv.skip(origv.len() - rows@.len()),
                rows@.len() <= origv.len(),
                orig == spec_rows_views(origv),
                i2r == spec_binding_views(id2region@),
                spec_same_core(&*old(self), self),
                out@.len() == origv.len() - rows@.len(),
                forall|k: int|
                    0 <= k < out@.len() ==> #[trigger] out@[k].deep_view() == (
                    match spec_region_lookup(i2r, orig[k].entity_id) {
                        Some(reg) => RowView {
                            cells: Seq::new(
                                orig[k].cells.len(),
                                |c: int|
                                    Seq::new(
                                        orig[k].cells[c].len(),
                                        |p: int| spec_region_part(orig[k].cells[c][p], reg),
                                    ),
                            ),
                            ..orig[k]
                        },
                        None => orig[k],
                    }),
            decreases rows@.len(),
        {
            let ghost done = origv.len() - rows@.len();
            let ghost head = rows@;
            let mut row = rows.remove(0);
            proof {
                assert(row == head[0]);
                assert(head[0] == origv[done]);
                assert(rows@ =~= origv.skip(done + 1)) by {
                    assert(rows@ =~= head.skip(1));
                }
                assert(orig[done] == origv[done].deep_view());
            }
            let region = region_lookup(id2region, row.entity_id.as_str());
            match region {
                None => {
                    let ghost rv = row.deep_view();
                    out.push(row);
                    proof {
                        assert(out@[out@.len() - 1].deep_view() == rv);
                    }
                },
                Some(reg) => {
                    let ghost rv = row.deep_view();
                    let ghost regv = reg@;
                    let m = row.cells.len();
                    let mut cells: Vec<ResultCell> = Vec::new();
                    while cells.len() < m
                        invariant
                            m == row.cells@.len(),
                            cells@.len() <= m,
                            rv == row.deep_view(),
                            regv == reg@,
                            forall|c: int|
                                0 <= c < cells@.len() ==> #[trigger] cells@[c].deep_view()
                                    =~= Seq::new(
                                    rv.cells[c].len(),
                                    |p: int| spec_region_part(rv.cells[c][p], regv),
                                ),
                        decreases m - cells@.len(),
                    {
                        let c = cells.len();
                        let cell = &row.cells[c];
                        let pn = cell.parts.len();
                        let mut parts: Vec<ResultCellPart> = Vec::new();
                        proof {
                            crate::row::lemma_part_views_index(cell.parts@);
                            assert(rv.cells[c as int] == row.cells@[c as int].deep_view());
                        }
                        while parts.len() < pn
                            invariant
                                pn == cell.parts@.len(),
                                parts@.len() <= pn,
                                cell == &row.cells@[cells@.len() as int],
                                cells@.len() < m,
                                m == row.cells@.len(),
                                rv == row.deep_view(),
                                regv == reg@,
                                rv.cells[cells@.len() as int] == cell.deep_view(),
                                forall|p: int|
                                    0 <= p < parts@.len()
                                        ==> #[trigger] parts@[p].deep_view()
                                        == spec_region_part(
                                        cell.deep_view()[p],
                                        regv,
                                    ),
                            decreases pn - parts@.len(),
                        {
                            let p = parts.len();
                            proof {
                                crate::row::lemma_part_views_index(cell.parts@);
                                assert(cell.deep_view()[p as int] == cell.parts@[
                                    p as int
                                ].deep_view());
                            }
                            let newp = match &cell.parts[p] {
                                ResultCellPart::Location(lat, lon, _r) => ResultCellPart::Location(
                                    lat.clone(),
                                    lon.clone(),
                                    Some(reg.clone()),
                                ),
                                other => other.duplicate(),
                            };
                            parts.push(newp);
                        }
                        let ghost partsg = parts@;
                        proof {
                            crate::row::lemma_part_views_index(partsg);
                        }
                        let newcell = ResultCell::new_from_parts(parts);
                        proof {
                            assert(newcell.deep_view() =~= Seq::new(
                                rv.cells[cells@.len() as int].len(),
                                |p: int|
                                    spec_region_part(rv.cells[cells@.len() as int][p], regv),
                            )) by {
                                assert(newcell.deep_view() == spec_part_views(partsg));
                                assert forall|p2: int|
                                    0 <= p2 < partsg.len() implies spec_part_views(partsg)[p2]
                                    == spec_region_part(
                                    rv.cells[cells@.len() as int][p2],
                                    regv,
                                ) by {
                                    assert(spec_part_views(partsg)[p2] == partsg[
                                        p2
                                    ].deep_view());
                                }
                            }
                        }
                        cells.push(newcell);
                    }
                    let ghost cellsv = cells.deep_view();
                    row.set_cells(cells);
                    let ghost rv2 = row.deep_view();
                    out.push(row);
                    proof {
                        assert(out@[out@.len() - 1].deep_view() == rv2);
                        assert(rv2.cells =~= Seq::new(
                            orig[done].cells.len(),
                            |c: int|
                                Seq::new(
                                    orig[done].cells[c].len(),
                                    |p: int| spec_region_part(orig[done].cells[c][p], regv),
                                ),
                        )) by {
                            assert forall|c: int|
                                0 <= c < orig[done].cells.len() implies rv2.cells[c] =~= Seq::new(
                                orig[done].cells[c].len(),
                                |p: int| spec_region_part(orig[done].cells[c][p], regv),
                            ) by {
                                assert(rv2.cells[c] == cellsv[c]);
                            }
                        }
                    }
                },
            }
        }
        self.results = out;
        proof {
            assert forall|i3: int|
                0 <= i3 < orig.len() implies #[trigger] self.results.deep_view()[i3] == (
            match spec_region_lookup(i2r, orig[i3].entity_id) {
                Some(reg) => RowView {
                    cells: Seq::new(
                        orig[i3].cells.len(),
                        |c: int|
                            Seq::new(
                                orig[i3].cells[c].len(),
                                |p: int| spec_region_part(orig[i3].cells[c][p], reg),
                            ),
                    ),
                    ..orig[i3]
                },
                None => orig[i3],
            }) by {
                assert(self.results.deep_view()[i3] == self.results@[i3].deep_view());
            }
        }
    }

    /// The URL an external identifier links to: the property's formatter
    /// URL with the percent-decoded id substituted.
    pub fn external_id_url(&self, prop: &str, id: &str) -> (r: Option<String>)
        ensures
            match r {
                Some(u) => (match spec_cached(&self.entities, prop@) {
                    Some(e) => match spec_formatter_url(e.statements, 0) {
                        Some(f) => match url_decoded(id@) {
                            Some(d) => u@ == spec_replace_all(f, "$1"@, d),
                            None => false,
                        },
                        None => false,
                    },
                    None => false,
                }),
                None => (match spec_cached(&self.entities, prop@) {
                    Some(e) => match spec_formatter_url(e.statements, 0) {
                        Some(_f) => url_decoded(id@) is None,
                        None => true,
                    },
                    None => true,
                }),
            },
    {
        let pi = match self.entities.get_entity(prop) {
            Some(e) => e,
            None => {
                return None;
            },
        };
        let n = pi.statements.len();
        let mut i: usize = 0;
        while i < n
            invariant
                n == pi.statements@.len(),
                0 <= i <= n,
                spec_formatter_url(pi.deep_view().statements, i as int) == spec_formatter_url(
                    pi.deep_view().statements,
                    0,
                ),
            decreases n - i,
        {
            proof {
                assert(pi.deep_view().statements[i as int] == pi.statements@[
                    i as int
                ].deep_view());
            }
            let st = &pi.statements[i];
            if str_eq(st.property.as_str(), "P1630") {
                match &st.value {
                    SnakValue::StringValue(f) => {
                        match url_decode(id) {
                            Some(d) => {
                                return Some(replace_all(f.as_str(), "$1", d.as_str()));
                            },
                            None => {
                                return None;
                            },
                        }
                    },
                    _ => {},
                }
            }
            i += 1;
        }
        None
    }

    /// The statements of an entity for one property, with the
    /// preferred-rank filter applied.
    pub fn get_filtered_claims(&self, e: &Entity, property: &str) -> (r: Vec<
        crate::entity::Statement,
    >)
        ensures
            r.deep_view().len() == spec_filtered_claim_idxs(
                e.deep_view().statements,
                property@,
                self.page_params.config.prefer_preferred,
            ).len(),
            forall|k: int|
                0 <= k < r.deep_view().len() ==> #[trigger] r.deep_view()[k]
                    == e.deep_view().statements[spec_filtered_claim_idxs(
                    e.deep_view().statements,
                    property@,
                    self.page_params.config.prefer_preferred,
                )[k]],
    {
        let idxs = e.filtered_claim_indices(
            property,
            self.page_params.config.prefer_preferred,
        );
        let ghost iv = crate::entity::spec_idxs_of(idxs@);
        let n = idxs.len();
        let mut out: Vec<crate::entity::Statement> = Vec::new();
        let mut k: usize = 0;
        while k < n
            invariant
                n == idxs@.len(),
                iv == crate::entity::spec_idxs_of(idxs@),
                iv.len() == n,
                iv =~= spec_filtered_claim_idxs(
                    e.deep_view().statements,
                    property@,
                    self.page_params.config.prefer_preferred,
                ),
                forall|t: int| 0 <= t < n ==> 0 <= #[trigger] idxs@[t] < e.statements@.len(),
                0 <= k <= n,
                out@.len() == k,
                forall|t: int|
                    0 <= t < k ==> #[trigger] out@[t].deep_view()
                        == e.deep_view().statements[iv[t]],
            decreases n - k,
        {
            proof {
                assert(iv[k as int] == idxs@[k as int] as int);
                assert(e.deep_view().statements[idxs@[k as int] as int] == e.statements@[
                    idxs@[k as int] as int
                ].deep_view());
            }
            out.push(e.statements[idxs[k]].duplicate());
            k += 1;
        }
        proof {
            assert forall|t: int|
                0 <= t < out.deep_view().len() implies #[trigger] out.deep_view()[t]
                == e.deep_view().statements[spec_filtered_claim_idxs(
                e.deep_view().statements,
                property@,
                self.page_params.config.prefer_preferred,
            )[t]] by {
                assert(out.deep_view()[t] == out@[t].deep_view());
            }
        }
        out
    }

    /// The extra ids the post-processing passes need loaded: every
    /// localizable or external-id reference in the cells, and the sort
    /// and section properties.
    pub fn gather_extra_entity_ids(&self) -> (r: Result<Vec<String>, String>)
        ensures
            (r is Err) == (self.params.section is SparqlVariable),
            r matches Err(e) ==> e@ == "SPARQL variable section type not supported yet"@,
            r matches Ok(ids) ==> crate::configuration::spec_strs_view(ids@)
                == spec_rows_gather(self.results.deep_view()) + (match self.params.sort {
                SortMode::Property(p) => seq![p@],
                _ => Seq::empty(),
            }) + (match self.params.section {
                SectionType::Property(p) => seq![p@],
                _ => Seq::empty(),
            }),
    {
        if let SectionType::SparqlVariable(_v) = &self.params.section {
            return Err(String::from_str("SPARQL variable section type not supported yet"));
        }
        let ghost rowsv = self.results.deep_view();
        let mut ids: Vec<String> = Vec::new();
        let n = self.results.len();
        let mut i: usize = 0;
        proof {
            crate::row::lemma_rows_views(self.results);
            assert(rowsv.skip(0) =~= rowsv);
            assert(crate::configuration::spec_strs_view(ids@) + spec_rows_gather(rowsv)
                =~= spec_rows_gather(rowsv));
        }
        while i < n
            invariant
                n == self.results@.len(),
                0 <= i <= n,
                rowsv == self.results.deep_view(),
                rowsv.len() == n,
                crate::configuration::spec_strs_view(ids@) + spec_rows_gather(
                    rowsv.skip(i as int),
                ) =~= spec_rows_gather(rowsv),
            decreases n - i,
        {
            proof {
                assert(rowsv.skip(i as int)[0] == rowsv[i as int]);
                assert(rowsv[i as int] == self.results@[i as int].deep_view());
                assert(rowsv.skip(i as int).skip(1) =~= rowsv.skip(i as int + 1));
            }
            let row = &self.results[i];
            let ghost cellsv = row.deep_view().cells;
            let m = row.cells.len();
            let mut c: usize = 0;
            proof {
                assert(cellsv.skip(0) =~= cellsv);
                assert(crate::configuration::spec_strs_view(ids@) + (spec_cells_gather(cellsv)
                    + spec_rows_gather(rowsv.skip(i as int + 1))) =~= spec_rows_gather(rowsv));
            }
            while c < m
                invariant
                    m == row.cells@.len(),
                    0 <= c <= m,
                    row == &self.results@[i as int],
                    i < n,
                    n == self.results@.len(),
                    rowsv == self.results.deep_view(),
                    rowsv.len() == n,
                    cellsv == row.deep_view().cells,
                    cellsv.len() == m,
                    crate::configuration::spec_strs_view(ids@) + (spec_cells_gather(
                        cellsv.skip(c as int),
                    ) + spec_rows_gather(rowsv.skip(i as int + 1))) =~= spec_rows_gather(rowsv),
                decreases m - c,
            {
                proof {
                    assert(cellsv.skip(c as int)[0] == cellsv[c as int]);
                    assert(cellsv[c as int] == row.cells@[c as int].deep_view());
                    assert(cellsv.skip(c as int).skip(1) =~= cellsv.skip(c as int + 1));
                }
                let ghost ib = ids@;
                let mut found = self.gather_entities_and_external_properties(
                    &row.cells[c].parts,
                );
                let ghost fv = crate::configuration::spec_strs_view(found@);
                ids.append(&mut found);
                proof {
                    assert(crate::configuration::spec_strs_view(ids@)
                        =~= crate::configuration::spec_strs_view(ib) + fv) by {
                        assert forall|t: int|
                            0 <= t < ids@.len() implies crate::configuration::spec_strs_view(
                            ids@,
                        )[t] == (crate::configuration::spec_strs_view(ib) + fv)[t] by {
                        }
                    }
                }
                c += 1;
            }
            i += 1;
        }
        proof {
            assert(rowsv.skip(n as int) =~= Seq::<RowView>::empty());
            assert(spec_rows_gather(rowsv.skip(n as int)) =~= Seq::<Seq<char>>::empty());
            assert(crate::configuration::spec_strs_view(ids@) =~= spec_rows_gather(rowsv));
        }
        let ghost base = crate::configuration::spec_strs_view(ids@);
        if let SortMode::Property(p) = &self.params.sort {
            let ghost ib = ids@;
            ids.push(p.clone());
            proof {
                assert(crate::configuration::spec_strs_view(ids@)
                    =~= crate::configuration::spec_strs_view(ib).push(
                    self.params.sort->Property_0@,
                ));
            }
        }
        proof {
            assert(crate::configuration::spec_strs_view(ids@) =~= base + (
            match self.params.sort {
                SortMode::Property(pp) => seq![pp@],
                _ => Seq::empty(),
            }));
        }
        let ghost base2 = crate::configuration::spec_strs_view(ids@);
        if let SectionType::Property(p) = &self.params.section {
            let ghost ib = ids@;
            ids.push(p.clone());
            proof {
                assert(crate::configuration::spec_strs_view(ids@)
                    =~= crate::configuration::spec_strs_view(ib).push(
                    self.params.section->Property_0@,
                ));
            }
        }
        proof {
            assert(crate::configuration::spec_strs_view(ids@) =~= base2 + (
            match self.params.section {
                SectionType::Property(pp) => seq![pp@],
                _ => Seq::empty(),
            }));
        }
        Ok(ids)
    }

    /// The localizable entity references and external-id properties of a
    /// part list, nested lists included.
    pub fn gather_entities_and_external_properties(&self, parts: &Vec<ResultCellPart>) -> (r:
        Vec<String>)
        ensures
            crate::configuration::spec_strs_view(r@) == spec_parts_entity_ids(
                spec_part_views(parts@),
            ),
        decreases parts,
    {
        let ghost pv = spec_part_views(parts@);
        let n = parts.len();
        let mut out: Vec<String> = Vec::new();
        let mut i: usize = 0;
        proof {
            crate::row::lemma_part_views_index(parts@);
            assert(pv.skip(0) =~= pv);
            assert(crate::configuration::spec_strs_view(out@) + spec_parts_entity_ids(pv)
                =~= spec_parts_entity_ids(pv));
        }
        while i < n
            invariant
                n == parts@.len(),
                0 <= i <= n,
                pv == spec_part_views(parts@),
                pv.len() == n,
                crate::configuration::spec_strs_view(out@) + spec_parts_entity_ids(
                    pv.skip(i as int),
                ) =~= spec_parts_entity_ids(pv),
            decreases n - i,
        {
            proof {
                crate::row::lemma_part_views_index(parts@);
                assert(pv.skip(i as int)[0] == pv[i as int]);
                assert(pv[i as int] == parts@[i as int].deep_view());
                assert(pv.skip(i as int).skip(1) =~= pv.skip(i as int + 1));
            }
            match &parts[i] {
                ResultCellPart::Entity(id, true) => {
                    let ghost ob = out@;
                    out.push(id.clone());
                    proof {
                        assert(crate::configuration::spec_strs_view(out@)
                            =~= crate::configuration::spec_strs_view(ob).push(
                            pv[i as int]->Entity_0,
                        ));
                    }
                },
                ResultCellPart::ExternalId(propname, _id) => {
                    let ghost ob = out@;
                    out.push(propname.clone());
                    proof {
                        assert(crate::configuration::spec_strs_view(out@)
                            =~= crate::configuration::spec_strs_view(ob).push(
                            pv[i as int]->ExternalId_0,
                        ));
                    }
                },
                ResultCellPart::SnakList(inner) => {
                    let ghost ob = out@;
                    let mut found = self.gather_entities_and_external_properties(inner);
                    let ghost fv = crate::configuration::spec_strs_view(found@);
                    out.append(&mut found);
                    proof {
                        assert(crate::configuration::spec_strs_view(out@)
                            =~= crate::configuration::spec_strs_view(ob) + fv) by {
                            assert forall|t: int|
                                0 <= t < out@.len() implies crate::configuration::spec_strs_view(
                                out@,
                            )[t] == (crate::configuration::spec_strs_view(ob) + fv)[t] by {
                            }
                        }
                    }
                },
                _ => {},
            }
            i += 1;
        }
        proof {
            assert(pv.skip(n as int) =~= Seq::<PartView>::empty());
            assert(spec_parts_entity_ids(pv.skip(n as int)) =~= Seq::<Seq<char>>::empty());
            assert(crate::configuration::spec_strs_view(out@) + Seq::<Seq<char>>::empty()
                =~= crate::configuration::spec_strs_view(out@));
        }
        out
    }

    /// The entity ids a property's values name across all subjects, for
    /// loading before sorting or sectioning by that property.
    pub fn gather_items_for_property(&self, prop: &str) -> (r: Vec<String>)
        ensures
            crate::configuration::spec_strs_view(r@) == spec_prop_items(
                self,
                self.results.deep_view(),
                prop@,
            ),
    {
        let ghost rowsv = self.results.deep_view();
        let n = self.results.len();
        let mut out: Vec<String> = Vec::new();
        let mut i: usize = 0;
        proof {
            crate::row::lemma_rows_views(self.results);
            assert(rowsv.skip(0) =~= rowsv);
            assert(crate::configuration::spec_strs_view(out@) + spec_prop_items(
                self,
                rowsv,
                prop@,
            ) =~= spec_prop_items(self, rowsv, prop@));
        }
        while i < n
            invariant
                n == self.results@.len(),
                0 <= i <= n,
                rowsv == self.results.deep_view(),
                rowsv.len() == n,
                crate::configuration::spec_strs_view(out@) + spec_prop_items(
                    self,
                    rowsv.skip(i as int),
                    prop@,
                ) =~= spec_prop_items(self, rowsv, prop@),
            decreases n - i,
        {
            proof {
                assert(rowsv.skip(i as int)[0] == rowsv[i as int]);
                assert(rowsv[i as int] == self.results@[i as int].deep_view());
                assert(rowsv.skip(i as int).skip(1) =~= rowsv.skip(i as int + 1));
            }
            let subject = self.results[i].entity_id.clone();
            match self.entities.get_entity(subject.as_str()) {
                None => {},
                Some(e) => {
                    let m = e.statements.len();
                    let mut t: usize = 0;
                    proof {
                        assert(crate::configuration::spec_strs_view(out@)
                            + (spec_stmt_entities(e.deep_view().statements, prop@, 0)
                            + spec_prop_items(self, rowsv.skip(i as int + 1), prop@))
                            =~= spec_prop_items(self, rowsv, prop@));
                    }
                    while t < m
                        invariant
                            m == e.statements@.len(),
                            0 <= t <= m,
                            i < n,
                            n == self.results@.len(),
                            rowsv == self.results.deep_view(),
                            rowsv.len() == n,
                            e.deep_view().statements.len() == m,
                            crate::configuration::spec_strs_view(out@) + (spec_stmt_entities(
                                e.deep_view().statements,
                                prop@,
                                t as int,
                            ) + spec_prop_items(self, rowsv.skip(i as int + 1), prop@))
                                =~= spec_prop_items(self, rowsv, prop@),
                        decreases m - t,
                    {
                        proof {
                            assert(e.deep_view().statements[t as int] == e.statements@[
                                t as int
                            ].deep_view());
                        }
                        let st = &e.statements[t];
                        if str_eq(st.property.as_str(), prop) {
                            match &st.value {
                                SnakValue::Entity(vid) => {
                                    let ghost ob = out@;
                                    out.push(vid.clone());
                                    proof {
                                        assert(crate::configuration::spec_strs_view(out@)
                                            =~= crate::configuration::spec_strs_view(ob).push(
                                            e.deep_view().statements[
                                                t as int
                                            ].value->Entity_0,
                                        ));
                                    }
                                },
                                _ => {},
                            }
                        }
                        t += 1;
                    }
                },
            }
            i += 1;
        }
        proof {
            assert(rowsv.skip(n as int) =~= Seq::<RowView>::empty());
            assert(spec_prop_items(self, rowsv.skip(n as int), prop@)
                =~= Seq::<Seq<char>>::empty());
            assert(crate::configuration::spec_strs_view(out@) + Seq::<Seq<char>>::empty()
                =~= crate::configuration::spec_strs_view(out@));
        }
        out
    }
}

/// The entity values of one property among an entity's statements.
pub open spec fn spec_stmt_entities(stmts: Seq<StatementView>, prop: Seq<char>, from: int)
    -> Seq<Seq<char>>
    decreases stmts.len() - from,
{
    if from < 0 || from >= stmts.len() {
        Seq::empty()
    } else {
        let rest = spec_stmt_entities(stmts, prop, from + 1);
        if stmts[from].property == prop && stmts[from].value is Entity {
            seq![stmts[from].value->Entity_0] + rest
        } else {
            rest
        }
    }
}

/// The entity ids a property's values name, row by row.
pub open spec fn spec_prop_items(l: &ListeriaList, rows: Seq<RowView>, prop: Seq<char>) -> Seq<
    Seq<char>,
>
    decreases rows.len(),
{
    if rows.len() == 0 {
        Seq::empty()
    } else {
        let head = (match spec_cached(&l.entities, rows[0].entity_id) {
            Some(e) => spec_stmt_entities(e.statements, prop, 0),
            None => Seq::empty(),
        });
        head + spec_prop_items(l, rows.skip(1), prop)
    }
}

/// The property ids the column headers name, in column order.
pub open spec fn spec_column_prop_ids(cols: Seq<Column>) -> Seq<Seq<char>>
    decreases cols.len(),
{
    if cols.len() == 0 {
        Seq::empty()
    } else {
        spec_column_prop_ids(cols.drop_last()) + (match cols.last().obj {
            ColumnType::Property(p) => seq![p@],
            ColumnType::PropertyQualifier(p, q) => seq![p@, q@],
            ColumnType::PropertyQualifierValue(p, q, p2) => seq![p@, q@, p2@],
            _ => Seq::empty(),
        })
    }
}

/// The ids to load that one row's cells reference.
pub open spec fn spec_cells_gather(cells: Seq<Seq<PartView>>) -> Seq<Seq<char>>
    decreases cells.len(),
{
    if cells.len() == 0 {
        Seq::empty()
    } else {
        spec_parts_entity_ids(cells[0]) + spec_cells_gather(cells.skip(1))
    }
}

/// The ids to load that all rows reference.
pub open spec fn spec_rows_gather(rows: Seq<RowView>) -> Seq<Seq<char>>
    decreases rows.len(),
{
    if rows.len() == 0 {
        Seq::empty()
    } else {
        spec_cells_gather(rows[0].cells) + spec_rows_gather(rows.skip(1))
    }
}

/// The first formatter URL among an entity's statements: the first
/// statement of the formatter property with a plain string value.
pub open spec fn spec_formatter_url(stmts: Seq<StatementView>, from: int) -> Option<Seq<char>>
    decreases stmts.len() - from,
{
    if from < 0 || from >= stmts.len() {
        None
    } else if stmts[from].property == "P1630"@ && stmts[from].value is StringValue {
        Some(stmts[from].value->StringValue_0)
    } else {
        spec_formatter_url(stmts, from + 1)
    }
}

/// The views of probed `(id, region)` pairs.
pub open spec fn spec_binding_views(pairs: Seq<(String, String)>) -> Seq<(Seq<char>, Seq<char>)> {
    Seq::new(pairs.len(), |i: int| (pairs[i].0@, pairs[i].1@))
}

/// First-match lookup among probed regions, executable.
fn region_lookup<'a>(pairs: &'a Vec<(String, String)>, id: &str) -> (r: Option<&'a String>)
    ensures
        match r {
            Some(x) => spec_region_lookup(spec_binding_views(pairs@), id@) == Some(x@),
            None => spec_region_lookup(spec_binding_views(pairs@), id@) is None,
        },
{
    let ghost all = spec_binding_views(pairs@);
    let n = pairs.len();
    let mut i: usize = 0;
    proof {
        assert(all.skip(0) =~= all);
    }
    while i < n
        invariant
            n == pairs@.len(),
            0 <= i <= n,
            all == spec_binding_views(pairs@),
            all.len() == n,
            spec_region_lookup(all.skip(i as int), id@) == spec_region_lookup(all, id@),
        decreases n - i,
    {
        proof {
            assert(all.skip(i as int)[0] == all[i as int]);
            assert(all.skip(i as int).skip(1) =~= all.skip(i as int + 1));
        }
        let pair = &pairs[i];
        if str_eq(pair.0.as_str(), id) {
            return Some(&pair.1);
        }
        i += 1;
    }
    proof {
        assert(all.skip(i as int) =~= Seq::<(Seq<char>, Seq<char>)>::empty());
    }
    None
}





/// The section id of each row.
pub open spec fn spec_row_sections(rows: Seq<RowView>) -> Seq<int> {
    Seq::new(rows.len(), |i: int| rows[i].section)
}

/// Numeric insertion of one id into a sorted list.
pub open spec fn spec_insert_int(x: int, s: Seq<int>) -> Seq<int>
    decreases s.len(),
{
    if s.len() == 0 {
        seq![x]
    } else if x < s[0] {
        seq![x] + s
    } else {
        seq![s[0]] + spec_insert_int(x, s.skip(1))
    }
}

/// Numeric insertion sort.
pub open spec fn spec_sort_ints(s: Seq<int>) -> Seq<int>
    decreases s.len(),
{
    if s.len() == 0 {
        Seq::empty()
    } else {
        spec_insert_int(s.last(), spec_sort_ints(s.drop_last()))
    }
}

/// Adjacent duplicates removed.
pub open spec fn spec_dedup_ints(s: Seq<int>) -> Seq<int>
    decreases s.len(),
{
    if s.len() == 0 {
        Seq::empty()
    } else if s.len() == 1 {
        s
    } else if s[s.len() - 1] == s[s.len() - 2] {
        spec_dedup_ints(s.drop_last())
    } else {
        spec_dedup_ints(s.drop_last()).push(s.last())
    }
}

proof fn lemma_insert_int_at(x: int, s: Seq<int>, k: int)
    requires
        0 <= k <= s.len(),
        forall|j: int| 0 <= j < k ==> !(x < #[trigger] s[j]),
        k < s.len() ==> x < s[k],
    ensures
        spec_insert_int(x, s) == s.take(k) + seq![x] + s.skip(k),
    decreases k,
{
    if s.len() == 0 {
        assert(s.take(0) + seq![x] + s.skip(0) =~= seq![x]);
    } else if k == 0 {
        assert(s.take(0) + seq![x] + s.skip(0) =~= seq![x] + s);
    } else {
        lemma_insert_int_at(x, s.skip(1), k - 1);
        assert(forall|j: int| 0 <= j < k - 1 ==> s.skip(1)[j] == #[trigger] s[j + 1]);
        assert(seq![s[0]] + (s.skip(1).take(k - 1) + seq![x] + s.skip(1).skip(k - 1)) =~= s.take(
            k,
        ) + seq![x] + s.skip(k));
    }
}

impl ListeriaList {
    /// The section ids the rows use, sorted, one entry each.
    pub fn get_section_ids(&self) -> (r: Vec<usize>)
        ensures
            crate::entity::spec_idxs_of(r@) == spec_dedup_ints(
                spec_sort_ints(spec_row_sections(self.results.deep_view())),
            ),
    {
        let ghost rowsv = self.results.deep_view();
        let ghost secs = spec_row_sections(rowsv);
        let n = self.results.len();
        let mut ids: Vec<usize> = Vec::new();
        let mut i: usize = 0;
        proof {
            crate::row::lemma_rows_views(self.results);
            assert(crate::entity::spec_idxs_of(ids@) =~= secs.take(0));
        }
        while i < n
            invariant
                n == self.results@.len(),
                0 <= i <= n,
                rowsv == self.results.deep_view(),
                rowsv.len() == n,
                secs == spec_row_sections(rowsv),
                crate::entity::spec_idxs_of(ids@) =~= secs.take(i as int),
            decreases n - i,
        {
            proof {
                assert(rowsv[i as int] == self.results@[i as int].deep_view());
            }
            let ghost ib = ids@;
            ids.push(self.results[i].section);
            proof {
                assert(crate::entity::spec_idxs_of(ids@) =~= crate::entity::spec_idxs_of(
                    ib,
                ).push(secs[i as int]));
                assert(crate::entity::spec_idxs_of(ids@) =~= secs.take(i as int + 1));
            }
            i += 1;
        }
        proof {
            assert(secs.take(n as int) =~= secs);
        }
        // insertion sort, then drop adjacent duplicates
        let mut rest = ids;
        let mut sorted: Vec<usize> = Vec::new();
        let ghost origv = rest@;
        let ghost orig = crate::entity::spec_idxs_of(origv);
        proof {
            assert(crate::entity::spec_idxs_of(sorted@) =~= spec_sort_ints(orig.take(0)));
            assert(rest@ =~= origv.skip(0));
        }
        while rest.len() > 0
            invariant
                rest@ =~= origv.skip(origv.len() - rest@.len()),
                rest@.len() <= origv.len(),
                orig == crate::entity::spec_idxs_of(origv),
                crate::entity::spec_idxs_of(sorted@) == spec_sort_ints(
                    orig.take(origv.len() - rest@.len()),
                ),
            decreases rest@.len(),
        {
            let ghost done = origv.len() - rest@.len();
            let ghost head = rest@;
            let x = rest.remove(0);
            proof {
                assert(x == head[0]);
                assert(head[0] == origv[done]);
                assert(x as int == orig[done]);
                assert(rest@ =~= origv.skip(done + 1)) by {
                    assert(rest@ =~= head.skip(1));
                }
            }
            let ghost sv = crate::entity::spec_idxs_of(sorted@);
            let m = sorted.len();
            let mut k: usize = 0;
            while k < m && !(x < sorted[k])
                invariant
                    m == sorted@.len(),
                    0 <= k <= m,
                    sv == crate::entity::spec_idxs_of(sorted@),
                    sv.len() == m,
                    forall|j: int| 0 <= j < k ==> !((x as int) < #[trigger] sv[j]),
                decreases m - k,
            {
                proof {
                    assert(sv[k as int] == sorted@[k as int] as int);
                }
                k += 1;
            }
            proof {
                if k < m {
                    assert(sv[k as int] == sorted@[k as int] as int);
                }
                lemma_insert_int_at(x as int, sv, k as int);
            }
            let ghost sb = sorted@;
            sorted.insert(k, x);
            proof {
                assert(sorted@ == sb.insert(k as int, x));
                assert(crate::entity::spec_idxs_of(sorted@) =~= sv.take(k as int) + seq![
                    x as int,
                ] + sv.skip(k as int)) by {
                    assert forall|t: int|
                        0 <= t < sorted@.len() implies crate::entity::spec_idxs_of(sorted@)[t]
                        == (sv.take(k as int) + seq![x as int] + sv.skip(k as int))[t] by {
                        if t < k {
                            assert(sorted@[t] == sb[t]);
                        } else if t == k {
                        } else {
                            assert(sorted@[t] == sb[t - 1]);
                        }
                    }
                }
                assert(orig.take(done + 1).drop_last() =~= orig.take(done));
                assert(orig.take(done + 1).last() == orig[done]);
                assert(crate::entity::spec_idxs_of(sorted@) == spec_sort_ints(
                    orig.take(done + 1),
                ));
            }
        }
        proof {
            assert(orig.take(origv.len() as int) =~= orig);
        }
        let ghost sortedv = crate::entity::spec_idxs_of(sorted@);
        let sn = sorted.len();
        let mut out: Vec<usize> = Vec::new();
        let mut t: usize = 0;
        proof {
            assert(sortedv.take(0) =~= Seq::<int>::empty());
            assert(crate::entity::spec_idxs_of(out@) =~= spec_dedup_ints(sortedv.take(0)));
        }
        while t < sn
            invariant
                sn == sorted@.len(),
                0 <= t <= sn,
                sortedv == crate::entity::spec_idxs_of(sorted@),
                sortedv.len() == sn,
                crate::entity::spec_idxs_of(out@) == spec_dedup_ints(sortedv.take(t as int)),
            decreases sn - t,
        {
            proof {
                assert(sortedv.take(t as int + 1).drop_last() =~= sortedv.take(t as int));
                assert(sortedv.take(t as int + 1).last() == sortedv[t as int]);
                assert(sortedv[t as int] == sorted@[t as int] as int);
                if t > 0 {
                    assert(sortedv.take(t as int + 1)[t as int - 1] == sortedv[t as int - 1]);
                    assert(sortedv[t as int - 1] == sorted@[t as int - 1] as int);
                }
            }
            let keep = if t == 0 {
                true
            } else {
                sorted[t] != sorted[t - 1]
            };
            if keep {
                let ghost ob = out@;
                out.push(sorted[t]);
                proof {
                    assert(crate::entity::spec_idxs_of(out@) =~= crate::entity::spec_idxs_of(
                        ob,
                    ).push(sortedv[t as int]));
                    if t > 0 {
                        assert(spec_dedup_ints(sortedv.take(t as int + 1)) == spec_dedup_ints(
                            sortedv.take(t as int),
                        ).push(sortedv[t as int]));
                    } else {
                        assert(sortedv.take(1int) =~= seq![sortedv[0]]);
                        assert(spec_dedup_ints(sortedv.take(1int)) =~= seq![sortedv[0]]);
                        assert(crate::entity::spec_idxs_of(out@) =~= seq![sortedv[0]]);
                    }
                }
            } else {
                proof {
                    assert(spec_dedup_ints(sortedv.take(t as int + 1)) == spec_dedup_ints(
                        sortedv.take(t as int),
                    ));
                }
            }
            t += 1;
        }
        proof {
            assert(sortedv.take(sn as int) =~= sortedv);
        }
        out
    }

    /// Whether the red-link pass probes at all: only the link modes that
    /// show red links need page-existence probes.
    pub fn needs_redlink_probes(&self) -> (r: bool)
        ensures
            r == (self.params.links == LinksType::Red || self.params.links
                == LinksType::RedOnly),
    {
        match &self.params.links {
            LinksType::Red => true,
            LinksType::RedOnly => true,
            _ => false,
        }
    }

    /// Whether a probed file may be locally overridden: it may unless
    /// every returned page record reported the shared repository, and an
    /// unreadable probe counts as possibly local.
    pub fn shadow_flag_from_probe(shared_flags: &Option<Vec<bool>>) -> (r: bool)
        ensures
            r == (match shared_flags {
                Some(flags) => flags@.contains(false),
                None => true,
            }),
    {
        match shared_flags {
            None => true,
            Some(flags) => {
                let n = flags.len();
                let mut i: usize = 0;
                while i < n
                    invariant
                        n == flags@.len(),
                        0 <= i <= n,
                        forall|k: int| 0 <= k < i ==> #[trigger] flags@[k],
                    decreases n - i,
                {
                    if !flags[i] {
                        assert(flags@.contains(false));
                        return true;
                    }
                    i += 1;
                }
                proof {
                    if flags@.contains(false) {
                        let k = choose|k: int| 0 <= k < flags@.len() && !flags@[k];
                        assert(false);
                    }
                }
                false
            },
        }
    }

    /// Whether the fallback description service is asked at all.
    pub fn autodesc_wanted(&self) -> (r: bool)
        ensures
            r == (self.params.autodesc matches Some(v) && v@ == "FALLBACK"@),
    {
        match &self.params.autodesc {
            Some(v) => str_eq(v.as_str(), "FALLBACK"),
            None => false,
        }
    }

    /// The URL the fallback description of one entity is fetched from.
    pub fn autodesc_url(&self, entity_id: &str) -> (r: String)
        ensures
            r@ == "https://tools.wmflabs.org/autodesc/?q="@ + entity_id@ + "&lang="@
                + self.page_params.language@ + "&mode=short&links=wiki&format=json"@,
    {
        let mut s = String::from_str("https://tools.wmflabs.org/autodesc/?q=");
        s.append(entity_id);
        s.append("&lang=");
        s.append(self.page_params.language.as_str());
        s.append("&mode=short&links=wiki&format=json");
        s
    }

    /// The description a fallback-service response carries, or the error
    /// a malformed response raises.
    pub fn autodesc_from_response(j: &JsonLite) -> (r: Result<String, String>)
        ensures
            match r {
                Ok(d) => crate::configuration::spec_str_member(j.deep_view(), "result"@)
                    == Some(d@),
                Err(e) => crate::configuration::spec_str_member(j.deep_view(), "result"@)
                    is None && e@ == "Not a valid autodesc result"@,
            },
    {
        match j.member("result") {
            Some(JsonLite::Str(d)) => Ok(d.clone()),
            _ => Err(String::from_str("Not a valid autodesc result")),
        }
    }
}


/// The stages of one run, in their fixed linear order: any stage error
/// abandons the run, and nothing branches back.
#[derive(Debug, Clone, Copy, PartialEq, Eq, Structural)]
pub enum PipelineStage {
    ParseConfig,
    RunQuery,
    LoadEntities,
    BuildRows,
    LocalizeLinks,
    FilterByLinkMode,
    DetectSharedImages,
    Sort,
    AssignSections,
    EnrichRegions,
    Done,
}

/// The stage that follows each stage; `Done` is terminal.
pub open spec fn spec_next_stage(s: PipelineStage) -> PipelineStage {
    match s {
        PipelineStage::ParseConfig => PipelineStage::RunQuery,
        PipelineStage::RunQuery => PipelineStage::LoadEntities,
        PipelineStage::LoadEntities => PipelineStage::BuildRows,
        PipelineStage::BuildRows => PipelineStage::LocalizeLinks,
        PipelineStage::LocalizeLinks => PipelineStage::FilterByLinkMode,
        PipelineStage::FilterByLinkMode => PipelineStage::DetectSharedImages,
        PipelineStage::DetectSharedImages => PipelineStage::Sort,
        PipelineStage::Sort => PipelineStage::AssignSections,
        PipelineStage::AssignSections => PipelineStage::EnrichRegions,
        PipelineStage::EnrichRegions => PipelineStage::Done,
        PipelineStage::Done => PipelineStage::Done,
    }
}

/// Advance the run to its next stage.
pub fn next_stage(s: &PipelineStage) -> (r: PipelineStage)
    ensures
        r == spec_next_stage(*s),
{
    match s {
        PipelineStage::ParseConfig => PipelineStage::RunQuery,
        PipelineStage::RunQuery => PipelineStage::LoadEntities,
        PipelineStage::LoadEntities => PipelineStage::BuildRows,
        PipelineStage::BuildRows => PipelineStage::LocalizeLinks,
        PipelineStage::LocalizeLinks => PipelineStage::FilterByLinkMode,
        PipelineStage::FilterByLinkMode => PipelineStage::DetectSharedImages,
        PipelineStage::DetectSharedImages => PipelineStage::Sort,
        PipelineStage::Sort => PipelineStage::AssignSections,
        PipelineStage::AssignSections => PipelineStage::EnrichRegions,
        PipelineStage::EnrichRegions => PipelineStage::Done,
        PipelineStage::Done => PipelineStage::Done,
    }
}

/// Copy a string list, preserving its views.
fn clone_strs(v: &Vec<String>) -> (r: Vec<String>)
    ensures
        crate::configuration::spec_strs_view(r@) =~= crate::configuration::spec_strs_view(v@),
{
    let n = v.len();
    let mut out: Vec<String> = Vec::new();
    let mut i: usize = 0;
    while i < n
        invariant
            n == v@.len(),
            0 <= i <= n,
            out@.len() == i,
            forall|k: int| 0 <= k < i ==> #[trigger] out@[k]@ == v@[k]@,
        decreases n - i,
    {
        out.push(v[i].clone());
        i += 1;
    }
    proof {
        assert forall|k: int|
            0 <= k < n implies crate::configuration::spec_strs_view(out@)[k]
            == crate::configuration::spec_strs_view(v@)[k] by {
        }
    }
    out
}

/// Whether a string list holds `x`.
fn vec_contains_str(v: &Vec<String>, x: &str) -> (r: bool)
    ensures
        r == (exists|i: int| 0 <= i < v@.len() && #[trigger] v@[i]@ == x@),
{
    let n = v.len();
    let mut i: usize = 0;
    while i < n
        invariant
            n == v@.len(),
            0 <= i <= n,
            forall|j: int| 0 <= j < i ==> #[trigger] v@[j]@ != x@,
        decreases n - i,
    {
        if str_eq(v[i].as_str(), x) {
            return true;
        }
        i += 1;
    }
    false
}

} // verus!
