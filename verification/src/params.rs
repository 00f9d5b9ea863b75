//! The template's typed parameters: link mode, sort mode and order,
//! sectioning, locale and the miscellaneous flags, parsed from the raw
//! key/value pairs of the list template; and the per-page parameters a run
//! is started with.

use crate::configuration::Configuration;
use crate::entity::{spec_pair_lookup, spec_pairs_view, pair_lookup};
use crate::text::{
    eq_ignore_ascii_case, spec_eq_ignore_ascii_case, spec_parse_u64, spec_trim, parse_u64,
    trim_str,
};
use vstd::prelude::*;

verus! {

/// How cells link to the wiki.
#[derive(Debug, Clone, Copy, PartialEq, Eq, Structural)]
pub enum LinksType {
    All,
    Local,
    Red,
    RedOnly,
    Text,
    Reasonator,
}

/// How rows are sorted.
#[derive(Debug, Clone)]
pub enum SortMode {
    Unsorted,
    Label,
    FamilyName,
    Property(String),
}

#[derive(Debug, Clone, Copy, PartialEq, Eq, Structural)]
pub enum SortOrder {
    Ascending,
    Descending,
}

/// How rows are grouped into sections.
#[derive(Debug, Clone)]
pub enum SectionType {
    NoSections,
    Property(String),
    SparqlVariable(String),
}

/// The link mode a `links` parameter value names; anything unknown means
/// all links.
pub open spec fn spec_links_type(s: Seq<char>) -> LinksType {
    let t = spec_trim(s);
    if spec_eq_ignore_ascii_case(t, "local"@) {
        LinksType::Local
    } else if spec_eq_ignore_ascii_case(t, "red"@) {
        LinksType::Red
    } else if spec_eq_ignore_ascii_case(t, "red_only"@) {
        LinksType::RedOnly
    } else if spec_eq_ignore_ascii_case(t, "text"@) {
        LinksType::Text
    } else if spec_eq_ignore_ascii_case(t, "reasonator"@) {
        LinksType::Reasonator
    } else {
        LinksType::All
    }
}

impl LinksType {
    pub fn new_from_string(s: &str) -> (r: LinksType)
        ensures
            r == spec_links_type(s@),
    {
        let t = trim_str(s);
        if eq_ignore_ascii_case(t.as_str(), "local") {
            LinksType::Local
        } else if eq_ignore_ascii_case(t.as_str(), "red") {
            LinksType::Red
        } else if eq_ignore_ascii_case(t.as_str(), "red_only") {
            LinksType::RedOnly
        } else if eq_ignore_ascii_case(t.as_str(), "text") {
            LinksType::Text
        } else if eq_ignore_ascii_case(t.as_str(), "reasonator") {
            LinksType::Reasonator
        } else {
            LinksType::All
        }
    }
}

/// The raw template: its parameters as key/value pairs, as the page parser
/// handed them over.
#[derive(Debug, Clone)]
pub struct Template {
    pub params: Vec<(String, String)>,
}

impl Template {
    pub fn new_from_params(params: Vec<(String, String)>) -> (r: Template)
        ensures
            r.params == params,
    {
        Template { params }
    }

    /// The first value under a parameter name, if any.
    pub fn get(&self, key: &str) -> (r: Option<&String>)
        ensures
            match r {
                Some(x) => spec_pair_lookup(spec_pairs_view(self.params@), key@) == Some(x@),
                None => spec_pair_lookup(spec_pairs_view(self.params@), key@) is None,
            },
    {
        pair_lookup(&self.params, key)
    }
}

/// The typed parameters of one list template.
#[derive(Debug, Clone)]
pub struct TemplateParams {
    pub links: LinksType,
    pub sort: SortMode,
    pub sort_order: SortOrder,
    pub section: SectionType,
    pub min_section: u64,
    pub one_row_per_item: bool,
    pub wikibase: String,
    pub skip_table: bool,
    pub row_template: Option<String>,
    pub header_template: Option<String>,
    pub summary: Option<String>,
    pub autodesc: Option<String>,
}

/// The sort mode a `sort` parameter value names: `label`, `family_name`,
/// a property id, or no sorting at all.
pub fn parse_sort_mode(s: &str) -> (r: SortMode)
    ensures
        spec_eq_ignore_ascii_case(spec_trim(s@), "label"@) ==> r is Label,
        !spec_eq_ignore_ascii_case(spec_trim(s@), "label"@) && spec_eq_ignore_ascii_case(
            spec_trim(s@),
            "family_name"@,
        ) ==> r is FamilyName,
        !spec_eq_ignore_ascii_case(spec_trim(s@), "label"@) && !spec_eq_ignore_ascii_case(
            spec_trim(s@),
            "family_name"@,
        ) ==> match crate::column::spec_column_type(s@) {
            crate::column::ColumnTypeView::Property(p) => r matches SortMode::Property(q) && q@
                == p,
            _ => r is Unsorted,
        },
{
    let t = trim_str(s);
    if eq_ignore_ascii_case(t.as_str(), "label") {
        SortMode::Label
    } else if eq_ignore_ascii_case(t.as_str(), "family_name") {
        SortMode::FamilyName
    } else {
        match crate::column::parse_column_type(s) {
            crate::column::ColumnType::Property(p) => SortMode::Property(p),
            _ => SortMode::Unsorted,
        }
    }
}

impl TemplateParams {
    /// The defaults: all links, no sort, ascending, no sections, a
    /// two-row section threshold, one row per item, the default wikibase
    /// setup.
    pub fn new() -> (r: TemplateParams)
        ensures
            r.links == LinksType::All,
            r.sort is Unsorted,
            r.sort_order == SortOrder::Ascending,
            r.section is NoSections,
            r.min_section == 2u64,
            r.one_row_per_item == false,
            r.wikibase@ == "wikidata"@,
            r.skip_table == false,
            r.row_template is None,
            r.header_template is None,
            r.summary is None,
            r.autodesc is None,
    {
        TemplateParams {
            links: LinksType::All,
            sort: SortMode::Unsorted,
            sort_order: SortOrder::Ascending,
            section: SectionType::NoSections,
            min_section: 2,
            one_row_per_item: false,
            wikibase: String::from_str("wikidata"),
            skip_table: false,
            row_template: None,
            header_template: None,
            summary: None,
            autodesc: None,
        }
    }

    /// Parse a template's parameters into the typed form; parameters that
    /// are absent keep their defaults.
    #[verifier::rlimit(100)]
    #[verifier::spinoff_prover]
    pub fn new_from_params(template: &Template) -> (r: TemplateParams)
        ensures
            r.links == match spec_pair_lookup(spec_pairs_view(template.params@), "links"@) {
                Some(v) => spec_links_type(v),
                None => LinksType::All,
            },
            r.sort_order == (if (spec_pair_lookup(spec_pairs_view(template.params@), "sort_order"@)
                matches Some(v) && spec_eq_ignore_ascii_case(spec_trim(v), "descending"@)) {
                SortOrder::Descending
            } else {
                SortOrder::Ascending
            }),
            r.min_section == (match spec_pair_lookup(
                spec_pairs_view(template.params@),
                "min_section"@,
            ) {
                Some(v) => match spec_parse_u64(spec_trim(v)) {
                    Some(n) => n,
                    None => 2u64,
                },
                None => 2u64,
            }),
            r.one_row_per_item == (spec_pair_lookup(
                spec_pairs_view(template.params@),
                "one_row_per_item"@,
            ) matches Some(v) && spec_eq_ignore_ascii_case(spec_trim(v), "yes"@)),
            r.skip_table == (spec_pair_lookup(spec_pairs_view(template.params@), "skip_table"@)
                is Some),
            r.wikibase@ == (match spec_pair_lookup(
                spec_pairs_view(template.params@),
                "wikibase"@,
            ) {
                Some(v) => spec_trim(v),
                None => "wikidata"@,
            }),
            match spec_pair_lookup(spec_pairs_view(template.params@), "sort"@) {
                Some(v) => {
                    &&& (spec_eq_ignore_ascii_case(spec_trim(v), "label"@) ==> r.sort is Label)
                    &&& (!spec_eq_ignore_ascii_case(spec_trim(v), "label"@)
                        && spec_eq_ignore_ascii_case(spec_trim(v), "family_name"@) ==> r.sort
                        is FamilyName)
                    &&& (!spec_eq_ignore_ascii_case(spec_trim(v), "label"@)
                        && !spec_eq_ignore_ascii_case(spec_trim(v), "family_name"@)
                        ==> match crate::column::spec_column_type(v) {
                        crate::column::ColumnTypeView::Property(p) => r.sort
                            matches SortMode::Property(q) && q@ == p,
                        _ => r.sort is Unsorted,
                    })
                },
                None => r.sort is Unsorted,
            },
            match spec_pair_lookup(spec_pairs_view(template.params@), "section"@) {
                Some(v) => match crate::column::spec_column_type(v) {
                    crate::column::ColumnTypeView::Property(p) => r.section
                        matches SectionType::Property(q) && q@ == p,
                    _ => r.section is NoSections,
                },
                None => r.section is NoSections,
            },
            match spec_pair_lookup(spec_pairs_view(template.params@), "row_template"@) {
                Some(v) => r.row_template matches Some(x) && x@ == v,
                None => r.row_template is None,
            },
            match spec_pair_lookup(spec_pairs_view(template.params@), "header_template"@) {
                Some(v) => r.header_template matches Some(x) && x@ == v,
                None => r.header_template is None,
            },
            match spec_pair_lookup(spec_pairs_view(template.params@), "summary"@) {
                Some(v) => r.summary matches Some(x) && x@ == v,
                None => r.summary is None,
            },
            match spec_pair_lookup(spec_pairs_view(template.params@), "autodesc"@) {
                Some(v) => r.autodesc matches Some(x) && x@ == v,
                None => r.autodesc is None,
            },
    {
        let mut r = TemplateParams::new();
        if let Some(v) = template.get("links") {
            r.links = LinksType::new_from_string(v.as_str());
        }
        if let Some(v) = template.get("sort") {
            r.sort = parse_sort_mode(v.as_str());
        }
        if let Some(v) = template.get("sort_order") {
            let t = trim_str(v.as_str());
            if eq_ignore_ascii_case(t.as_str(), "descending") {
                r.sort_order = SortOrder::Descending;
            }
        }
        if let Some(v) = template.get("section") {
            match crate::column::parse_column_type(v.as_str()) {
                crate::column::ColumnType::Property(p) => {
                    r.section = SectionType::Property(p);
                },
                _ => {},
            }
        }
        if let Some(v) = template.get("min_section") {
            let t = trim_str(v.as_str());
            if let Some(n) = parse_u64(t.as_str()) {
                r.min_section = n;
            }
        }
        if let Some(v) = template.get("one_row_per_item") {
            let t = trim_str(v.as_str());
            r.one_row_per_item = eq_ignore_ascii_case(t.as_str(), "yes");
        }
        if template.get("skip_table").is_some() {
            r.skip_table = true;
        }
        if let Some(v) = template.get("wikibase") {
            r.wikibase = trim_str(v.as_str());
        }
        if let Some(v) = template.get("row_template") {
            r.row_template = Some(v.clone());
        }
        if let Some(v) = template.get("header_template") {
            r.header_template = Some(v.clone());
        }
        if let Some(v) = template.get("summary") {
            r.summary = Some(v.clone());
        }
        if let Some(v) = template.get("autodesc") {
            r.autodesc = Some(v.clone());
        }
        r
    }
}

/// What a run of the pipeline is started with: the page, the target wiki,
/// the locale, and the run-wide configuration.
pub struct PageParams {
    pub language: String,
    pub wiki: String,
    pub page: String,
    pub simulate: bool,
    pub simulated_sparql_results: Option<String>,
    pub local_file_namespace_prefix: String,
    pub config: Configuration,
}

impl PageParams {
    pub fn local_file_namespace_prefix(&self) -> (r: &String)
        ensures
            r == &self.local_file_namespace_prefix,
    {
        &self.local_file_namespace_prefix
    }
}

} // verus!
