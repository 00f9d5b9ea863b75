use listeria::configuration::{Configuration, NamespaceGroup};
use listeria::jsonlite::JsonLite;
use listeria::sparql::SparqlValue;
use listeria::text::{parse_u64, replace_all, split_str, trim_str};

fn obj(pairs: Vec<(&str, JsonLite)>) -> JsonLite {
    JsonLite::Obj(pairs.into_iter().map(|(k, v)| (k.to_string(), v)).collect())
}

fn s(x: &str) -> JsonLite {
    JsonLite::Str(x.to_string())
}

fn config_doc() -> JsonLite {
    obj(vec![
        ("default_api", s("wikidata")),
        (
            "apis",
            obj(vec![("wikidata", s("https://www.wikidata.org/w/api.php"))]),
        ),
        ("default_language", s("en")),
        ("prefer_preferred", JsonLite::Bool(true)),
        ("default_thumbnail_size", JsonLite::Num("96".to_string())),
        (
            "shadow_images_check",
            JsonLite::Arr(vec![s("frwiki"), s("dewiki")]),
        ),
        ("location_regions", JsonLite::Arr(vec![s("dewiki")])),
        (
            "location_templates",
            obj(vec![("default", s("{{Coord|$LAT$|$LON$}}"))]),
        ),
        (
            "namespace_blocks",
            obj(vec![
                ("dewiki", s("*")),
                (
                    "enwiki",
                    JsonLite::Arr(vec![
                        JsonLite::Num("2".to_string()),
                        JsonLite::Num("4".to_string()),
                    ]),
                ),
            ]),
        ),
        (
            "wiki_login",
            obj(vec![("user", s("BotUser")), ("pass", s("SECRET-REDACTED"))]),
        ),
        ("template_start_q", s("Q19860885")),
        ("template_end_q", s("Q19860887")),
    ])
}

#[test]
fn configuration_from_document() {
    let (mut config, q_start, q_end) = match Configuration::new_from_json(&config_doc()) {
        Ok(t) => t,
        Err(e) => panic!("{}", e),
    };
    assert_eq!(q_start, "Q19860885");
    assert_eq!(q_end, "Q19860887");
    assert_eq!(config.default_language(), "en");
    assert!(config.prefer_preferred());
    assert_eq!(config.default_thumbnail_size(), 96);
    assert_eq!(config.wiki_user(), "BotUser");
    assert!(config.check_for_shadow_images(&"frwiki".to_string()));
    assert!(!config.check_for_shadow_images(&"enwiki".to_string()));
    // namespace rules: a star blocks everything, a list only its entries
    assert!(!config.can_edit_namespace("dewiki", 0));
    assert!(config.can_edit_namespace("enwiki", 0));
    assert!(!config.can_edit_namespace("enwiki", 4));
    assert!(!config.can_edit_namespace("enwiki", -1));
    assert!(config.can_edit_namespace("unknownwiki", 3));
    // template titles come from the sitelink maps, after the last colon
    config.set_template_sites(
        vec![("enwiki".to_string(), "Template:Wikidata list".to_string())],
        vec![("enwiki".to_string(), "Template:Wikidata list end".to_string())],
    );
    assert_eq!(
        config.get_local_template_title_start("enwiki").unwrap(),
        "Wikidata list"
    );
    assert_eq!(
        config.get_local_template_title_end("enwiki").unwrap(),
        "Wikidata list end"
    );
    assert_eq!(
        config.get_local_template_title_start("frwiki").unwrap_err(),
        "Cannot find local start template"
    );
    assert_eq!(
        config.get_location_template("anywiki"),
        "{{Coord|$LAT$|$LON$}}"
    );
}

fn apis_entry() -> (&'static str, JsonLite) {
    (
        "apis",
        obj(vec![("wikidata", s("https://www.wikidata.org/w/api.php"))]),
    )
}

#[test]
fn configuration_error_order() {
    // an empty document fails on the missing default endpoint first
    match Configuration::new_from_json(&obj(vec![])) {
        Err(e) => assert_eq!(e, "No default API set in config file"),
        Ok(_) => panic!("accepted an empty document"),
    }
    // a default name the apis object does not register fails the same way
    let unregistered = obj(vec![
        ("default_api", s("commons")),
        apis_entry(),
        ("template_start_q", s("Q1")),
        ("template_end_q", s("Q2")),
    ]);
    match Configuration::new_from_json(&unregistered) {
        Err(e) => assert_eq!(e, "No default API set in config file"),
        Ok(_) => panic!("accepted an unregistered default endpoint"),
    }
    // with the endpoint registered, the template ids are checked in order
    let doc = obj(vec![("default_api", s("wikidata")), apis_entry()]);
    match Configuration::new_from_json(&doc) {
        Err(e) => assert_eq!(e, "No template_start_q in config"),
        Ok(_) => panic!("accepted a document without a start template"),
    }
    let doc2 = obj(vec![
        ("default_api", s("wikidata")),
        apis_entry(),
        ("template_start_q", s("Q1")),
    ]);
    match Configuration::new_from_json(&doc2) {
        Err(e) => assert_eq!(e, "No template_end_q in config"),
        Ok(_) => panic!("accepted a document without an end template"),
    }
    // a bad namespace block outranks every later error
    let doc3 = obj(vec![
        ("namespace_blocks", obj(vec![("enwiki", s("evens"))])),
    ]);
    match Configuration::new_from_json(&doc3) {
        Err(e) => assert_eq!(
            e,
            "Unrecognized string value for namespace_blocks[enwiki]:evens"
        ),
        Ok(_) => panic!("accepted a bad namespace block"),
    }
}

#[test]
fn namespace_group_rules() {
    assert!(!NamespaceGroup::All.can_edit_namespace(0));
    let list = NamespaceGroup::List(vec![2, 4]);
    assert!(list.can_edit_namespace(0));
    assert!(!list.can_edit_namespace(2));
    assert!(!list.can_edit_namespace(-3));
}

#[test]
fn text_utilities() {
    assert_eq!(trim_str("  a b\t"), "a b");
    assert_eq!(parse_u64("128"), Some(128));
    assert_eq!(parse_u64(""), None);
    assert_eq!(parse_u64("12x"), None);
    assert_eq!(parse_u64("18446744073709551615"), Some(u64::MAX));
    assert_eq!(parse_u64("18446744073709551616"), None);
    assert_eq!(split_str("a,b,,c", ','), vec!["a", "b", "", "c"]);
    assert_eq!(split_str("abc", ','), vec!["abc"]);
    assert_eq!(
        replace_all("{{Coord|$LAT$|$LON$}}", "$LAT$", "48.1"),
        "{{Coord|48.1|$LON$}}"
    );
    assert_eq!(replace_all("aaa", "aa", "b"), "ba");
    assert_eq!(replace_all("abc", "", "x"), "abc");
}

#[test]
fn sparql_value_classification() {
    let entity = obj(vec![
        ("type", s("uri")),
        ("value", s("http://www.wikidata.org/entity/Q42")),
    ]);
    match SparqlValue::new_from_json(&entity) {
        Some(SparqlValue::Entity(id)) => assert_eq!(id, "Q42"),
        other => panic!("classified {:?}", other),
    }
    let uri = obj(vec![("type", s("uri")), ("value", s("http://example.org/x"))]);
    assert!(matches!(
        SparqlValue::new_from_json(&uri),
        Some(SparqlValue::Uri(_))
    ));
    let lang = obj(vec![
        ("type", s("literal")),
        ("value", s("Douglas Adams")),
        ("xml:lang", s("en")),
    ]);
    match SparqlValue::new_from_json(&lang) {
        Some(SparqlValue::Literal(text, lang_tag)) => {
            assert_eq!(text, "Douglas Adams");
            assert_eq!(lang_tag.as_deref(), Some("en"));
        },
        other => panic!("classified {:?}", other),
    }
    let time = obj(vec![
        ("type", s("literal")),
        ("value", s("+1952-03-11T00:00:00Z")),
        ("datatype", s("http://www.w3.org/2001/XMLSchema#dateTime")),
    ]);
    assert!(matches!(
        SparqlValue::new_from_json(&time),
        Some(SparqlValue::Time(_))
    ));
    let coord = obj(vec![
        ("type", s("literal")),
        ("value", s("Point(11.5 48.1)")),
        ("datatype", s("http://www.opengis.net/ont/geosparql#wktLiteral")),
    ]);
    match SparqlValue::new_from_json(&coord) {
        Some(SparqlValue::Coordinate(lat, lon)) => {
            assert_eq!(lat, "48.1");
            assert_eq!(lon, "11.5");
        },
        other => panic!("classified {:?}", other),
    }
    let qty = obj(vec![
        ("type", s("literal")),
        ("value", s("42")),
        ("datatype", s("http://www.w3.org/2001/XMLSchema#decimal")),
    ]);
    assert!(matches!(
        SparqlValue::new_from_json(&qty),
        Some(SparqlValue::Quantity(_))
    ));
    let bnode = obj(vec![("type", s("bnode")), ("value", s("b0"))]);
    assert!(SparqlValue::new_from_json(&bnode).is_none());
}

#[test]
fn mysql_settings_lookup() {
    let doc = obj(vec![
        ("default_api", s("wikidata")),
        apis_entry(),
        ("template_start_q", s("Q1")),
        ("template_end_q", s("Q2")),
        ("mysql", obj(vec![("host", s("SECRET-REDACTED"))])),
    ]);
    let (config, _start, _end) = match Configuration::new_from_json(&doc) {
        Ok(t) => t,
        Err(e) => panic!("{}", e),
    };
    match config.mysql("host") {
        Some(JsonLite::Str(v)) => assert_eq!(v, "SECRET-REDACTED"),
        other => panic!("looked up {:?}", other),
    }
    assert!(config.mysql("port").is_none());
}
