use listeria::cache::EntityContainerWrapper;
use listeria::codec::{entity_from_tokens, entity_to_tokens};
use listeria::entity::{
    Entity, EntityKind, Qualifier, SnakDataType, SnakValue, Statement, StatementRank,
};

fn rich_entity(id: &str) -> Entity {
    Entity {
        id: id.to_string(),
        kind: EntityKind::Item,
        labels: vec![
            ("en".to_string(), "A label".to_string()),
            ("de".to_string(), "Ein Name".to_string()),
        ],
        sitelinks: vec![("enwiki".to_string(), "A page".to_string())],
        statements: vec![Statement {
            property: "P31".to_string(),
            rank: StatementRank::Preferred,
            datatype: SnakDataType::WikibaseItem,
            value: SnakValue::Entity("Q5".to_string()),
            qualifiers: vec![Qualifier {
                property: "P580".to_string(),
                datatype: SnakDataType::Time,
                value: SnakValue::Time("+1952-03-11T00:00:00Z".to_string()),
            }],
        }],
        datatype: None,
    }
}

fn ids(list: &[&str]) -> Vec<String> {
    list.iter().map(|x| x.to_string()).collect()
}

// Encoding an entity and decoding the tokens yields the entity back.
#[test]
fn codec_round_trip() {
    let e = rich_entity("Q42");
    let toks = entity_to_tokens(&e);
    let back = entity_from_tokens(&toks).expect("decodes");
    assert_eq!(back.id, "Q42");
    assert_eq!(back.labels, e.labels);
    assert_eq!(back.sitelinks, e.sitelinks);
    assert_eq!(back.statements.len(), 1);
    assert_eq!(back.statements[0].property, "P31");
    assert!(matches!(back.statements[0].rank, StatementRank::Preferred));
    assert_eq!(back.statements[0].qualifiers.len(), 1);
    assert_eq!(back.statements[0].qualifiers[0].property, "P580");
    match &back.statements[0].value {
        SnakValue::Entity(v) => assert_eq!(v, "Q5"),
        other => panic!("decoded {:?}", other),
    }
}

// Duplicates, empty ids and already cached ids are planned for exactly one
// fetch each.
#[test]
fn one_fetch_per_unique_id() {
    let mut cache = EntityContainerWrapper::new();
    cache.store_batch_in_memory(vec![Entity {
        id: "Q9".to_string(),
        kind: EntityKind::Item,
        labels: Vec::new(),
        sitelinks: Vec::new(),
        statements: Vec::new(),
        datatype: None,
    }]);
    let wanted = ids(&["Q1", "Q2", "Q1", "", "Q9", "Q2", "Q3", "Q1"]);
    let unique = cache.unique_ids(&wanted);
    assert_eq!(unique, ids(&["Q1", "Q2", "Q3"]));
    let batches = cache.fetch_batches(unique, 2);
    assert_eq!(batches.len(), 2);
    assert_eq!(batches[0], ids(&["Q1", "Q2"]));
    assert_eq!(batches[1], ids(&["Q3"]));
    // a count within the threshold yields a single batch
    let small = cache.fetch_batches(ids(&["Q1", "Q2"]), 10);
    assert_eq!(small.len(), 1);
}

// Spilling to disk leaves the memory tier empty, and every spilled id is
// still retrievable through the cache.
#[test]
fn spilled_entities_stay_retrievable() {
    let mut cache = EntityContainerWrapper::new();
    let chunk1 = vec![rich_entity("Q1"), rich_entity("Q2")];
    let chunk2 = vec![rich_entity("Q3")];
    cache.store_batch_on_disk(&chunk1).unwrap();
    cache.store_batch_on_disk(&chunk2).unwrap();
    assert_eq!(cache.entities.len(), 0);
    for id in ["Q1", "Q2", "Q3"] {
        let e = cache.get_entity(id).expect("still retrievable");
        assert_eq!(e.id, id);
        assert_eq!(e.labels[0].1, "A label");
    }
    assert!(cache.get_entity("Q4").is_none());
    assert!(cache.has_entity("Q2"));
    assert_eq!(
        cache.get_local_entity_label("Q1", "de"),
        Some("Ein Name".to_string())
    );
}

// Memory-tier lookups work the same way, and a missing id is no error.
#[test]
fn memory_tier_lookup() {
    let mut cache = EntityContainerWrapper::new();
    cache.store_batch_in_memory(vec![rich_entity("Q7")]);
    let e = cache.get_entity("Q7").unwrap();
    assert_eq!(e.id, "Q7");
    assert!(cache.get_entity("Q8").is_none());
    assert_eq!(
        cache.get_datatype_for_property("Q7"),
        SnakDataType::StringType
    );
    let mut prop = rich_entity("P569");
    prop.kind = EntityKind::Property;
    prop.datatype = Some(SnakDataType::Time);
    cache.store_batch_in_memory(vec![prop]);
    assert_eq!(cache.get_datatype_for_property("P569"), SnakDataType::Time);
}
