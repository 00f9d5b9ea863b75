use listeria::column::{Column, ColumnType};
use listeria::configuration::Configuration;
use listeria::entity::{Entity, EntityKind, SnakDataType, SnakValue, Statement, StatementRank};
use listeria::jsonlite::JsonLite;
use listeria::listeria_list::{next_stage, ListeriaList, PipelineStage};
use listeria::params::{
    LinksType, PageParams, SectionType, SortMode, SortOrder, Template, TemplateParams,
};
use listeria::row::ResultCellPart;

fn obj(pairs: Vec<(&str, JsonLite)>) -> JsonLite {
    JsonLite::Obj(pairs.into_iter().map(|(k, v)| (k.to_string(), v)).collect())
}

fn s(x: &str) -> JsonLite {
    JsonLite::Str(x.to_string())
}

fn binding(var: &str, uri: &str) -> JsonLite {
    obj(vec![(var, obj(vec![("type", s("uri")), ("value", s(uri))]))])
}

fn query_doc(var: &str, ids: &[&str]) -> JsonLite {
    let bindings: Vec<JsonLite> = ids
        .iter()
        .map(|id| binding(var, &format!("http://www.wikidata.org/entity/{}", id)))
        .collect();
    obj(vec![
        ("head", obj(vec![("vars", JsonLite::Arr(vec![s(var)]))])),
        ("results", obj(vec![("bindings", JsonLite::Arr(bindings))])),
    ])
}

fn plain_config() -> Configuration {
    Configuration {
        wb_apis: Vec::new(),
        namespace_blocks: Vec::new(),
        default_api: "wikidata".to_string(),
        prefer_preferred: true,
        default_language: "en".to_string(),
        template_start_sites: Vec::new(),
        template_end_sites: Vec::new(),
        location_templates: vec![(
            "default".to_string(),
            "{{Coord|$LAT$|$LON$|item=$ITEM$|region=$REGION$}}".to_string(),
        )],
        shadow_images_check: Vec::new(),
        default_thumbnail_size: None,
        location_regions: Vec::new(),
        mysql: None,
        wiki_user: String::new(),
        wiki_password: String::new(),
    }
}

fn page_params(wiki: &str) -> PageParams {
    PageParams {
        language: "en".to_string(),
        wiki: wiki.to_string(),
        page: "Test page".to_string(),
        simulate: false,
        simulated_sparql_results: None,
        local_file_namespace_prefix: "File".to_string(),
        config: plain_config(),
    }
}

fn simple_entity(id: &str, label: &str, sitelink: Option<(&str, &str)>) -> Entity {
    Entity {
        id: id.to_string(),
        kind: EntityKind::Item,
        labels: vec![("en".to_string(), label.to_string())],
        sitelinks: match sitelink {
            Some((site, title)) => vec![(site.to_string(), title.to_string())],
            None => Vec::new(),
        },
        statements: Vec::new(),
        datatype: None,
    }
}

fn entity_with_claim(id: &str, label: &str, prop: &str, value: &str) -> Entity {
    Entity {
        id: id.to_string(),
        kind: EntityKind::Item,
        labels: vec![("en".to_string(), label.to_string())],
        sitelinks: Vec::new(),
        statements: vec![Statement {
            property: prop.to_string(),
            rank: StatementRank::Normal,
            datatype: SnakDataType::StringType,
            value: SnakValue::StringValue(value.to_string()),
            qualifiers: Vec::new(),
        }],
        datatype: None,
    }
}

fn fresh_list(wiki: &str) -> ListeriaList {
    let template = Template::new_from_params(Vec::new());
    ListeriaList::new(template, page_params(wiki))
}

// A query with two bindings yields two rows, cell 0 a localizable entity
// reference and cell 1 the label in the run's locale, original order kept.
#[test]
fn end_to_end_two_rows() {
    let mut list = fresh_list("enwiki");
    list.columns = vec![Column::new("item"), Column::new("label")];
    list.params.one_row_per_item = true;
    let doc = query_doc("item", &["Q1", "Q2"]);
    list.parse_sparql(&doc).unwrap();
    list.entities
        .store_batch_in_memory(vec![simple_entity("Q1", "First", None), simple_entity(
            "Q2", "Second", None,
        )]);
    list.generate_results().unwrap();
    let rows = list.results();
    assert_eq!(rows.len(), 2);
    assert_eq!(rows[0].entity_id, "Q1");
    assert_eq!(rows[1].entity_id, "Q2");
    for (row, label) in rows.iter().zip(["First", "Second"].iter()) {
        assert_eq!(row.cells.len(), 2);
        match &row.cells[0].parts[0] {
            ResultCellPart::Entity(id, localizable) => {
                assert_eq!(id, &row.entity_id);
                assert!(*localizable);
            },
            other => panic!("cell 0 is {:?}", other),
        }
        match &row.cells[1].parts[0] {
            ResultCellPart::Text(text) => assert_eq!(text, label),
            other => panic!("cell 1 is {:?}", other),
        }
    }
    // no sectioning happened
    assert!(list.section_name(0).is_none());
}

// Counts {A:5, B:1, C:3} with a minimum of 2 yield buckets A=0, C=1 and the
// reserved bucket 2; every B row lands in 2.
#[test]
fn section_thresholding() {
    let mut list = fresh_list("enwiki");
    list.columns = vec![Column::new("item")];
    list.params.one_row_per_item = true;
    list.params.section = SectionType::Property("P31".to_string());
    list.params.min_section = 2;
    let ids: Vec<String> = (1..=9).map(|i| format!("Q{}", i)).collect();
    let id_refs: Vec<&str> = ids.iter().map(|x| x.as_str()).collect();
    let doc = query_doc("item", &id_refs);
    list.parse_sparql(&doc).unwrap();
    let sections = ["A", "A", "A", "A", "A", "B", "C", "C", "C"];
    let entities: Vec<Entity> = ids
        .iter()
        .zip(sections.iter())
        .map(|(id, sec)| entity_with_claim(id, id, "P31", sec))
        .collect();
    list.entities.store_batch_in_memory(entities);
    list.generate_results().unwrap();
    list.process_assign_sections().unwrap();
    assert_eq!(list.section_name(0).unwrap(), "A");
    assert_eq!(list.section_name(1).unwrap(), "C");
    assert_eq!(list.section_name(2).unwrap(), "Misc");
    assert!(list.section_name(3).is_none());
    let rows = list.results();
    let expected = [0, 0, 0, 0, 0, 2, 1, 1, 1];
    for (row, want) in rows.iter().zip(expected.iter()) {
        assert_eq!(row.section, *want);
    }
    assert_eq!(list.get_section_ids(), vec![0, 1, 2]);
}

// A row whose subject has a sitelink on the target wiki is dropped by the
// red-only filter.
#[test]
fn red_only_filter_drops_existing() {
    let mut list = fresh_list("enwiki");
    list.columns = vec![Column::new("item")];
    list.params.one_row_per_item = true;
    list.params.links = LinksType::RedOnly;
    let doc = query_doc("item", &["Q1", "Q2"]);
    list.parse_sparql(&doc).unwrap();
    list.entities.store_batch_in_memory(vec![
        simple_entity("Q1", "Linked", Some(("enwiki", "Linked page"))),
        simple_entity("Q2", "Unlinked", None),
    ]);
    list.generate_results().unwrap();
    assert_eq!(list.results().len(), 2);
    list.process_redlinks_only().unwrap();
    let rows = list.results();
    assert_eq!(rows.len(), 1);
    assert_eq!(rows[0].entity_id, "Q2");
}

// Rows with equal sort keys keep their input order under ascending sort.
#[test]
fn stable_sort_keeps_tied_order() {
    let mut list = fresh_list("enwiki");
    list.columns = vec![Column::new("item")];
    list.params.one_row_per_item = true;
    list.params.sort = SortMode::Label;
    let doc = query_doc("item", &["Q5", "Q3", "Q4", "Q1", "Q2"]);
    list.parse_sparql(&doc).unwrap();
    list.entities.store_batch_in_memory(vec![
        simple_entity("Q5", "same", None),
        simple_entity("Q3", "same", None),
        simple_entity("Q4", "alpha", None),
        simple_entity("Q1", "same", None),
        simple_entity("Q2", "beta", None),
    ]);
    list.generate_results().unwrap();
    list.process_sort_results().unwrap();
    let order: Vec<&str> = list.results().iter().map(|r| r.entity_id.as_str()).collect();
    // "alpha" < "beta" < "same"; the tied "same" rows keep Q5, Q3, Q1 order
    assert_eq!(order, vec!["Q4", "Q2", "Q5", "Q3", "Q1"]);
}

// The descending result is the exact reverse of the full ascending
// sequence, tie groups included.
#[test]
fn descending_is_exact_reverse() {
    let build = |order: SortOrder| {
        let mut list = fresh_list("enwiki");
        list.columns = vec![Column::new("item")];
        list.params.one_row_per_item = true;
        list.params.sort = SortMode::Label;
        list.params.sort_order = order;
        let doc = query_doc("item", &["Q5", "Q3", "Q4", "Q1", "Q2"]);
        list.parse_sparql(&doc).unwrap();
        list.entities.store_batch_in_memory(vec![
            simple_entity("Q5", "same", None),
            simple_entity("Q3", "same", None),
            simple_entity("Q4", "alpha", None),
            simple_entity("Q1", "same", None),
            simple_entity("Q2", "beta", None),
        ]);
        list.generate_results().unwrap();
        list.process_sort_results().unwrap();
        let order: Vec<String> = list
            .results()
            .iter()
            .map(|r| r.entity_id.clone())
            .collect();
        order
    };
    let asc = build(SortOrder::Ascending);
    let desc = build(SortOrder::Descending);
    let mut reversed = asc.clone();
    reversed.reverse();
    assert_eq!(desc, reversed);
    // the tie group Q5, Q3, Q1 is reversed too
    assert_eq!(desc, vec!["Q1", "Q3", "Q5", "Q2", "Q4"]);
}

// Numeric sorting under a quantity datatype orders by value, not text.
#[test]
fn numeric_sort_by_quantity() {
    let mut list = fresh_list("enwiki");
    list.columns = vec![Column::new("item")];
    list.params.one_row_per_item = true;
    list.params.sort = SortMode::Property("P1082".to_string());
    let doc = query_doc("item", &["Q1", "Q2", "Q3"]);
    list.parse_sparql(&doc).unwrap();
    let mut prop = entity_with_claim("P1082", "population", "P0", "x");
    prop.kind = EntityKind::Property;
    prop.datatype = Some(SnakDataType::Quantity);
    let mut e1 = simple_entity("Q1", "one", None);
    e1.statements = vec![Statement {
        property: "P1082".to_string(),
        rank: StatementRank::Normal,
        datatype: SnakDataType::Quantity,
        value: SnakValue::Quantity("9".to_string()),
        qualifiers: Vec::new(),
    }];
    let mut e2 = simple_entity("Q2", "two", None);
    e2.statements = vec![Statement {
        property: "P1082".to_string(),
        rank: StatementRank::Normal,
        datatype: SnakDataType::Quantity,
        value: SnakValue::Quantity("10".to_string()),
        qualifiers: Vec::new(),
    }];
    let mut e3 = simple_entity("Q3", "three", None);
    e3.statements = vec![Statement {
        property: "P1082".to_string(),
        rank: StatementRank::Normal,
        datatype: SnakDataType::Quantity,
        value: SnakValue::Quantity("2".to_string()),
        qualifiers: Vec::new(),
    }];
    list.entities.store_batch_in_memory(vec![prop, e1, e2, e3]);
    list.generate_results().unwrap();
    list.process_sort_results().unwrap();
    let order: Vec<&str> = list.results().iter().map(|r| r.entity_id.as_str()).collect();
    // 2 < 9 < 10, although "10" < "2" < "9" as text
    assert_eq!(order, vec!["Q3", "Q1", "Q2"]);
}

// Localization turns a localizable entity reference into a local link
// with the sitelink title and the label.
#[test]
fn localize_entity_links() {
    let mut list = fresh_list("enwiki");
    list.columns = vec![Column::new("item")];
    list.params.one_row_per_item = true;
    let doc = query_doc("item", &["Q1"]);
    list.parse_sparql(&doc).unwrap();
    list.entities.store_batch_in_memory(vec![simple_entity(
        "Q1",
        "First",
        Some(("enwiki", "First page")),
    )]);
    list.generate_results().unwrap();
    list.process_items_to_local_links().unwrap();
    match &list.results()[0].cells[0].parts[0] {
        ResultCellPart::LocalLink(page, label, bold) => {
            assert_eq!(page, "First page");
            assert_eq!(label, "First");
            assert!(!bold);
        },
        other => panic!("part is {:?}", other),
    }
}

// Shadowed files are recorded sorted and stripped from every cell.
#[test]
fn shadow_files_are_stripped() {
    let mut list = fresh_list("enwiki");
    list.columns = vec![Column::new("P18")];
    list.params.one_row_per_item = true;
    let doc = query_doc("item", &["Q1"]);
    list.parse_sparql(&doc).unwrap();
    let mut e1 = simple_entity("Q1", "one", None);
    e1.statements = vec![
        Statement {
            property: "P18".to_string(),
            rank: StatementRank::Normal,
            datatype: SnakDataType::CommonsMedia,
            value: SnakValue::StringValue("Shadowed.jpg".to_string()),
            qualifiers: Vec::new(),
        },
        Statement {
            property: "P18".to_string(),
            rank: StatementRank::Normal,
            datatype: SnakDataType::CommonsMedia,
            value: SnakValue::StringValue("Shared.jpg".to_string()),
            qualifiers: Vec::new(),
        },
    ];
    list.entities.store_batch_in_memory(vec![e1]);
    list.generate_results().unwrap();
    let files = list.collect_file_names();
    assert_eq!(files, vec!["Shadowed.jpg".to_string(), "Shared.jpg".to_string()]);
    // the first file was probed as possibly local, the second as shared
    list.set_shadow_files(&files, &vec![true, false]);
    assert_eq!(list.shadow_files(), &vec!["Shadowed.jpg".to_string()]);
    let parts = &list.results()[0].cells[0].parts;
    assert_eq!(parts.len(), 1);
    match &parts[0] {
        ResultCellPart::File(name) => assert_eq!(name, "Shared.jpg"),
        other => panic!("part is {:?}", other),
    }
}

// The longest literal wins the region choice; non-literals never win.
#[test]
fn region_selection_prefers_longest_literal() {
    let bindings = vec![
        ("literal".to_string(), "DE".to_string()),
        ("uri".to_string(), "http://very-long-but-not-literal".to_string()),
        ("literal".to_string(), "DE-BY".to_string()),
        ("literal".to_string(), "DE-X".to_string()),
    ];
    let best = ListeriaList::best_region(&bindings);
    assert_eq!(best, Some("DE-BY".to_string()));
    assert_eq!(ListeriaList::best_region(&Vec::new()), None);
    let empty_only = vec![("literal".to_string(), String::new())];
    assert_eq!(ListeriaList::best_region(&empty_only), None);
}

// Regions land on every location part of the subject's rows.
#[test]
fn regions_are_applied() {
    let mut list = fresh_list("enwiki");
    list.columns = vec![Column::new("P625")];
    list.params.one_row_per_item = true;
    let doc = query_doc("item", &["Q1"]);
    list.parse_sparql(&doc).unwrap();
    let mut e1 = simple_entity("Q1", "one", None);
    e1.statements = vec![Statement {
        property: "P625".to_string(),
        rank: StatementRank::Normal,
        datatype: SnakDataType::GlobeCoordinate,
        value: SnakValue::Coordinate("48.1".to_string(), "11.5".to_string()),
        qualifiers: Vec::new(),
    }];
    list.entities.store_batch_in_memory(vec![e1]);
    list.generate_results().unwrap();
    let ids = list.collect_region_entity_ids();
    assert_eq!(ids, vec!["Q1".to_string()]);
    assert_eq!(
        list.region_query_for("Q1"),
        "SELECT ?q ?x { wd:Q1 wdt:P131* ?q . ?q wdt:P300 ?x }"
    );
    list.apply_regions(&vec![("Q1".to_string(), "DE-BY".to_string())]);
    match &list.results()[0].cells[0].parts[0] {
        ResultCellPart::Location(lat, lon, region) => {
            assert_eq!(lat, "48.1");
            assert_eq!(lon, "11.5");
            assert_eq!(region.as_deref(), Some("DE-BY"));
        },
        other => panic!("part is {:?}", other),
    }
}

// The preferred-rank filter: with a preferred statement present only
// preferred statements are read.
#[test]
fn preferred_rank_filter() {
    let mut list = fresh_list("enwiki");
    list.columns = vec![Column::new("P31")];
    list.params.one_row_per_item = true;
    let doc = query_doc("item", &["Q1"]);
    list.parse_sparql(&doc).unwrap();
    let mut e1 = simple_entity("Q1", "one", None);
    e1.statements = vec![
        Statement {
            property: "P31".to_string(),
            rank: StatementRank::Normal,
            datatype: SnakDataType::StringType,
            value: SnakValue::StringValue("normal".to_string()),
            qualifiers: Vec::new(),
        },
        Statement {
            property: "P31".to_string(),
            rank: StatementRank::Preferred,
            datatype: SnakDataType::StringType,
            value: SnakValue::StringValue("preferred".to_string()),
            qualifiers: Vec::new(),
        },
    ];
    list.entities.store_batch_in_memory(vec![e1]);
    list.generate_results().unwrap();
    let parts = &list.results()[0].cells[0].parts;
    assert_eq!(parts.len(), 1);
    match &parts[0] {
        ResultCellPart::Text(text) => assert_eq!(text, "preferred"),
        other => panic!("part is {:?}", other),
    }
}

// An external identifier resolves through the property's formatter URL
// with the identifier percent-decoded.
#[test]
fn external_id_url_substitutes() {
    let mut list = fresh_list("enwiki");
    let formatter = Entity {
        id: "P214".to_string(),
        kind: EntityKind::Property,
        labels: Vec::new(),
        sitelinks: Vec::new(),
        statements: vec![Statement {
            property: "P1630".to_string(),
            rank: StatementRank::Normal,
            datatype: SnakDataType::Url,
            value: SnakValue::StringValue("https://viaf.org/viaf/$1".to_string()),
            qualifiers: Vec::new(),
        }],
        datatype: Some(SnakDataType::ExternalId),
    };
    list.entities.store_batch_in_memory(vec![formatter]);
    let url = list.external_id_url("P214", "123%20456");
    assert_eq!(url, Some("https://viaf.org/viaf/123 456".to_string()));
    assert_eq!(list.external_id_url("P999", "1"), None);
}

// Probed page records without a missing marker mean the page exists.
#[test]
fn page_probe_decision() {
    assert!(ListeriaList::page_exists_from_probe(&Some(vec![false, false])));
    assert!(!ListeriaList::page_exists_from_probe(&Some(vec![false, true])));
    assert!(!ListeriaList::page_exists_from_probe(&None));
    let mut list = fresh_list("enwiki");
    list.record_local_page_exists("Known page".to_string(), true);
    assert!(list.local_page_exists("Known page"));
    assert!(!list.local_page_exists("Unknown page"));
}

// A malformed response document is a hard parse error.
#[test]
fn parse_errors_are_hard() {
    let mut list = fresh_list("enwiki");
    let no_head = obj(vec![("results", obj(vec![]))]);
    assert_eq!(
        list.parse_sparql(&no_head).unwrap_err(),
        "Bad SPARQL head.vars"
    );
    let bad_var = obj(vec![
        ("head", obj(vec![("vars", JsonLite::Arr(vec![JsonLite::Null]))])),
        ("results", obj(vec![("bindings", JsonLite::Arr(vec![]))])),
    ]);
    assert_eq!(
        list.parse_sparql(&bad_var).unwrap_err(),
        "Can't parse first variable"
    );
    let no_bindings = obj(vec![
        ("head", obj(vec![("vars", JsonLite::Arr(vec![s("item")]))])),
        ("results", JsonLite::Null),
    ]);
    assert_eq!(
        list.parse_sparql(&no_bindings).unwrap_err(),
        "Broken SPARQL results.bindings"
    );
    let bad_value = obj(vec![
        ("head", obj(vec![("vars", JsonLite::Arr(vec![s("item")]))])),
        (
            "results",
            obj(vec![(
                "bindings",
                JsonLite::Arr(vec![obj(vec![("item", obj(vec![("type", s("bnode"))]))])]),
            )]),
        ),
    ]);
    assert_eq!(
        list.parse_sparql(&bad_value).unwrap_err(),
        "Can't parse SPARQL value: item"
    );
}

// Variable-based sectioning is an explicitly unsupported feature.
#[test]
fn variable_sections_unsupported() {
    let mut list = fresh_list("enwiki");
    list.params.section = SectionType::SparqlVariable("x".to_string());
    assert_eq!(
        list.process_assign_sections().unwrap_err(),
        "SPARQL variable section type not supported yet"
    );
}

// Sectioning with no sort leaves the row order alone; generate keeps the
// binding order when no sort mode is set.
#[test]
fn order_preserved_without_sort() {
    let mut list = fresh_list("enwiki");
    list.columns = vec![Column::new("item")];
    list.params.one_row_per_item = true;
    let doc = query_doc("item", &["Q9", "Q2", "Q5"]);
    list.parse_sparql(&doc).unwrap();
    list.entities.store_batch_in_memory(vec![
        simple_entity("Q9", "nine", None),
        simple_entity("Q2", "two", None),
        simple_entity("Q5", "five", None),
    ]);
    list.generate_results().unwrap();
    list.process_sort_results().unwrap();
    let order: Vec<&str> = list.results().iter().map(|r| r.entity_id.as_str()).collect();
    assert_eq!(order, vec!["Q9", "Q2", "Q5"]);
}

// Template parameters parse into the typed configuration.
#[test]
fn template_params_parse() {
    let template = Template::new_from_params(vec![
        ("links".to_string(), "RED_ONLY".to_string()),
        ("sort_order".to_string(), "descending".to_string()),
        ("min_section".to_string(), "5".to_string()),
        ("one_row_per_item".to_string(), "yes".to_string()),
        ("wikibase".to_string(), " wikidata ".to_string()),
    ]);
    let params = TemplateParams::new_from_params(&template);
    assert_eq!(params.links, LinksType::RedOnly);
    assert_eq!(params.sort_order, SortOrder::Descending);
    assert_eq!(params.min_section, 5);
    assert!(params.one_row_per_item);
    assert_eq!(params.wikibase, "wikidata");
}

// Column tokens map to their kinds.
#[test]
fn column_tokens() {
    assert!(matches!(Column::new(" Item ").obj, ColumnType::Item));
    assert!(matches!(Column::new("number").obj, ColumnType::Number));
    assert!(matches!(Column::new("label").obj, ColumnType::Label));
    match Column::new("p31").obj {
        ColumnType::Property(p) => assert_eq!(p, "P31"),
        other => panic!("parsed {:?}", other),
    }
    match Column::new("P569/P580").obj {
        ColumnType::PropertyQualifier(p, q) => {
            assert_eq!(p, "P569");
            assert_eq!(q, "P580");
        },
        other => panic!("parsed {:?}", other),
    }
    match Column::new("P569/P580/P582").obj {
        ColumnType::PropertyQualifierValue(p, q, p2) => {
            assert_eq!(p, "P569");
            assert_eq!(q, "P580");
            assert_eq!(p2, "P582");
        },
        other => panic!("parsed {:?}", other),
    }
    match Column::new("birthplace").obj {
        ColumnType::Field(name) => assert_eq!(name, "birthplace"),
        other => panic!("parsed {:?}", other),
    }
}

// A template without a configured wikibase setup is refused.
#[test]
fn missing_wikibase_setup_is_an_error() {
    let template = Template::new_from_params(vec![(
        "columns".to_string(),
        "item,label".to_string(),
    )]);
    let mut list = ListeriaList::new(template, page_params("enwiki"));
    let err = list.process_template().unwrap_err();
    assert_eq!(err, "No wikibase setup configured for 'wikidata'");
}

// Case-normalized text sorting: lower- and upper-case labels interleave by
// their folded form, not by code point.
#[test]
fn sort_is_case_normalized() {
    let mut list = fresh_list("enwiki");
    list.columns = vec![Column::new("item")];
    list.params.one_row_per_item = true;
    list.params.sort = SortMode::Label;
    let doc = query_doc("item", &["Q1", "Q2", "Q3"]);
    list.parse_sparql(&doc).unwrap();
    list.entities.store_batch_in_memory(vec![
        simple_entity("Q1", "cherry", None),
        simple_entity("Q2", "Banana", None),
        simple_entity("Q3", "apple", None),
    ]);
    list.generate_results().unwrap();
    list.process_sort_results().unwrap();
    let order: Vec<&str> = list.results().iter().map(|r| r.entity_id.as_str()).collect();
    // by code point "Banana" would come first; case-folded it is second
    assert_eq!(order, vec!["Q3", "Q2", "Q1"]);
}

// The family-name key moves the last token to the front.
#[test]
fn family_name_sort_key() {
    let mut list = fresh_list("enwiki");
    list.columns = vec![Column::new("item")];
    list.params.one_row_per_item = true;
    list.params.sort = SortMode::FamilyName;
    let doc = query_doc("item", &["Q1", "Q2"]);
    list.parse_sparql(&doc).unwrap();
    list.entities.store_batch_in_memory(vec![
        simple_entity("Q1", "Ada Zenith", None),
        simple_entity("Q2", "Zoe Abbott", None),
    ]);
    list.generate_results().unwrap();
    list.process_sort_results().unwrap();
    let order: Vec<&str> = list.results().iter().map(|r| r.entity_id.as_str()).collect();
    // "Abbott, Zoe" < "Zenith, Ada"
    assert_eq!(order, vec!["Q2", "Q1"]);
    assert_eq!(list.results()[0].sortkey, "Abbott, Zoe");
}

// Page-title normalization upper-cases the first character.
#[test]
fn page_title_normalization() {
    let list = fresh_list("enwiki");
    assert_eq!(list.normalize_page_title("main page"), "Main page");
    assert_eq!(list.normalize_page_title("x"), "x");
    assert_eq!(list.normalize_page_title(""), "");
}

// The thumbnail size comes from the template when numeric, else from the
// configuration's default.
#[test]
fn thumbnail_size_fallbacks() {
    let mut list = fresh_list("enwiki");
    assert_eq!(list.thumbnail_size(), 128);
    list.template = Template::new_from_params(vec![(
        "thumb".to_string(),
        "64".to_string(),
    )]);
    assert_eq!(list.thumbnail_size(), 64);
    list.template = Template::new_from_params(vec![(
        "thumb".to_string(),
        "wide".to_string(),
    )]);
    assert_eq!(list.thumbnail_size(), 128);
}

// The location template substitutes all four placeholders.
#[test]
fn location_template_substitution() {
    let list = fresh_list("enwiki");
    let q = "Q64".to_string();
    let region = "DE-BE".to_string();
    let out = list.get_location_template("52.5", "13.4", Some(&q), Some(&region));
    assert_eq!(out, "{{Coord|52.5|13.4|item=Q64|region=DE-BE}}");
    let out2 = list.get_location_template("52.5", "13.4", None, None);
    assert_eq!(out2, "{{Coord|52.5|13.4|item=|region=}}");
}

// A subject with an empty binding list builds no row, in any link mode.
#[test]
fn empty_binding_list_builds_nothing() {
    let mut list = fresh_list("enwiki");
    list.columns = vec![Column::new("item")];
    list.entities
        .store_batch_in_memory(vec![simple_entity("Q1", "First", None)]);
    assert!(list.get_result_row("Q1", &Vec::new()).is_none());
    let mut one = Vec::new();
    one.push(0usize);
    // with a binding the row builds; the guard is the empty list alone
    let doc = query_doc("item", &["Q1"]);
    list.parse_sparql(&doc).unwrap();
    assert!(list.get_result_row("Q1", &one).is_some());
}

// Page-existence probes are owed only in the link modes that show red
// links.
#[test]
fn redlink_probe_gating() {
    let mut list = fresh_list("enwiki");
    assert!(!list.needs_redlink_probes());
    list.params.links = LinksType::Red;
    assert!(list.needs_redlink_probes());
    list.params.links = LinksType::RedOnly;
    assert!(list.needs_redlink_probes());
    list.params.links = LinksType::Local;
    assert!(!list.needs_redlink_probes());
}

// A file counts as possibly local unless every page reported the shared
// repository; a failed probe counts as possibly local.
#[test]
fn shadow_probe_decision() {
    assert!(!ListeriaList::shadow_flag_from_probe(&Some(vec![true, true])));
    assert!(ListeriaList::shadow_flag_from_probe(&Some(vec![true, false])));
    assert!(!ListeriaList::shadow_flag_from_probe(&Some(Vec::new())));
    assert!(ListeriaList::shadow_flag_from_probe(&None));
}

// The fallback-description pieces: the opt-in flag, the URL, and the
// response field.
#[test]
fn autodesc_pieces() {
    let mut list = fresh_list("enwiki");
    assert!(!list.autodesc_wanted());
    list.params.autodesc = Some("FALLBACK".to_string());
    assert!(list.autodesc_wanted());
    list.params.autodesc = Some("other".to_string());
    assert!(!list.autodesc_wanted());
    assert_eq!(
        list.autodesc_url("Q42"),
        "https://tools.wmflabs.org/autodesc/?q=Q42&lang=en&mode=short&links=wiki&format=json"
    );
    let good = obj(vec![("result", s("an English writer"))]);
    assert_eq!(
        ListeriaList::autodesc_from_response(&good),
        Ok("an English writer".to_string())
    );
    let bad = obj(vec![("result", JsonLite::Null)]);
    assert_eq!(
        ListeriaList::autodesc_from_response(&bad),
        Err("Not a valid autodesc result".to_string())
    );
}

// The endpoint key the template selects: trimmed and lowered, with the
// default setup name when the parameter is absent.
#[test]
fn wikibase_key_selection() {
    let list = fresh_list("enwiki");
    assert_eq!(list.wikibase_key(), "wikidata");
    let template = Template::new_from_params(vec![(
        "wikibase".to_string(),
        " COMMONS ".to_string(),
    )]);
    let list2 = ListeriaList::new(template, page_params("enwiki"));
    assert_eq!(list2.wikibase_key(), "commons");
}

// The stage order is linear and ends at the terminal stage.
#[test]
fn pipeline_stage_order() {
    let expected = [
        PipelineStage::ParseConfig,
        PipelineStage::RunQuery,
        PipelineStage::LoadEntities,
        PipelineStage::BuildRows,
        PipelineStage::LocalizeLinks,
        PipelineStage::FilterByLinkMode,
        PipelineStage::DetectSharedImages,
        PipelineStage::Sort,
        PipelineStage::AssignSections,
        PipelineStage::EnrichRegions,
        PipelineStage::Done,
    ];
    let mut stage = PipelineStage::ParseConfig;
    for want in expected.iter() {
        assert_eq!(stage, *want);
        stage = next_stage(&stage);
    }
    assert_eq!(stage, PipelineStage::Done);
}

// Region ids come out sorted and duplicate-free, one per subject with a
// location.
#[test]
fn region_ids_distinct_and_sorted() {
    let mut list = fresh_list("enwiki");
    list.columns = vec![Column::new("P625"), Column::new("P625")];
    list.params.one_row_per_item = true;
    let doc = query_doc("item", &["Q9", "Q2"]);
    list.parse_sparql(&doc).unwrap();
    let locations = |id: &str| {
        let mut e = simple_entity(id, id, None);
        e.statements = vec![Statement {
            property: "P625".to_string(),
            rank: StatementRank::Normal,
            datatype: SnakDataType::GlobeCoordinate,
            value: SnakValue::Coordinate("1.0".to_string(), "2.0".to_string()),
            qualifiers: Vec::new(),
        }];
        e
    };
    list.entities
        .store_batch_in_memory(vec![locations("Q9"), locations("Q2")]);
    list.generate_results().unwrap();
    // two location columns per row, yet one entry per subject, sorted
    assert_eq!(
        list.collect_region_entity_ids(),
        vec!["Q2".to_string(), "Q9".to_string()]
    );
}
