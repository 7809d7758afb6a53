use neo4j_schema::annotation::{
    annotate, example_answer, example_of_text, match_clause, range_answer, Annotation,
    AnnotationStep, EntityKind,
};
use neo4j_schema::data_type::DataType;
use neo4j_schema::json::Sample;

fn example(sample: Sample) -> String {
    match example_answer(Some(sample)) {
        Annotation::Example(text) => text,
        other => panic!("{other:?}"),
    }
}

#[test]
fn clauses_match_under_the_name_target() {
    assert_eq!(
        match_clause(EntityKind::Node, "Person"),
        "MATCH (target:`Person`)"
    );
    assert_eq!(
        match_clause(EntityKind::Relationship, ":`ACTED_IN`"),
        "MATCH ()-[target:`ACTED_IN`]->()"
    );
}

#[test]
fn opaque_types_are_settled_without_a_query() {
    for data_type in [DataType::Point, DataType::Mapping, DataType::Null] {
        assert!(matches!(
            annotate("MATCH (target:`A`)", "p", data_type),
            AnnotationStep::Settled(Annotation::Nothing)
        ));
    }
}

#[test]
fn ordered_types_ask_for_a_range() {
    for data_type in [DataType::Integer, DataType::Boolean, DataType::LocalTime] {
        match annotate("MATCH (target:`A`)", "born", data_type) {
            AnnotationStep::AskRange(query) => assert_eq!(
                query,
                "MATCH (target:`A`) WHERE target.`born` IS NOT NULL \
                 RETURN toString(min(target.`born`)) AS mn, \
                 toString(max(target.`born`)) AS mx"
            ),
            other => panic!("{other:?}"),
        }
    }
}

#[test]
fn other_types_ask_for_an_example() {
    for data_type in [DataType::String, DataType::List] {
        match annotate("MATCH ()-[target:`R`]->()", "name", data_type) {
            AnnotationStep::AskExample(query) => assert_eq!(
                query,
                "MATCH ()-[target:`R`]->() WHERE target.`name` IS NOT NULL \
                 RETURN target.`name` AS v LIMIT 1"
            ),
            other => panic!("{other:?}"),
        }
    }
}

#[test]
fn a_range_needs_both_bounds() {
    let low = || Some("1".to_string());
    let high = || Some("41610285".to_string());
    match range_answer(Some((low(), high()))) {
        Annotation::MinMax(mn, mx) => assert_eq!((mn.as_str(), mx.as_str()), ("1", "41610285")),
        other => panic!("{other:?}"),
    }
    assert!(matches!(range_answer(None), Annotation::Nothing));
    assert!(matches!(range_answer(Some((None, high()))), Annotation::Nothing));
    assert!(matches!(range_answer(Some((low(), None))), Annotation::Nothing));
    assert!(matches!(range_answer(Some((None, None))), Annotation::Nothing));
}

#[test]
fn texts_are_shown_in_quotes() {
    assert_eq!(example(Sample::Text("nurse é".to_string())), "\"nurse é\"");
    assert_eq!(example(Sample::Text(String::new())), "\"\"");
    assert_eq!(
        example(Sample::Text("a\"b\\c\n\u{1}\u{7f}".to_string())),
        "\"a\\\"b\\\\c\\n\\u0001\u{7f}\""
    );
}

#[test]
fn other_values_are_shown_bare() {
    let list = serde_json::Value::from(vec!["Q000187"]);
    assert_eq!(example(Sample::Other(list)), "[\"Q000187\"]");
    assert_eq!(example(Sample::Other(serde_json::Value::from(7))), "7");
    assert_eq!(example(Sample::Other(serde_json::Value::from(1.5))), "1.5");
    assert_eq!(example(Sample::Other(serde_json::Value::from(true))), "true");
    assert_eq!(example(Sample::Other(serde_json::Value::Null)), "null");
    let mut object = serde_json::Map::new();
    object.insert("b".to_string(), serde_json::Value::from(1));
    assert_eq!(
        example(Sample::Other(serde_json::Value::Object(object))),
        "{\"b\":1}"
    );
}

#[test]
fn without_a_value_there_is_no_annotation() {
    assert!(matches!(example_answer(None), Annotation::Nothing));
    assert!(matches!(example_of_text(None), Annotation::Nothing));
    assert!(matches!(
        example_of_text(Some("x".to_string())),
        Annotation::Example(text) if text == "x"
    ));
}
