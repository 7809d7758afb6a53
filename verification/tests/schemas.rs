use indexmap::IndexSet;
use neo4j_schema::annotation::{Annotation, AnnotationStep, EntityKind};
use neo4j_schema::data_type::DataType;
use neo4j_schema::props::{collect_node_props, collect_rel_props, NodeRow, PropTable, RelRow};
use neo4j_schema::queries::{NODE_PROPS_QUERY, PATTERNS_QUERY, REL_PROPS_QUERY};
use neo4j_schema::renderer::{MarkdownRenderer, SchemaRenderer};
use neo4j_schema::resolve::{
    plan_annotations, resolve_annotations, resolve_without_examples, ResolvedProp, Section,
};
use neo4j_schema::scope::Scope;
use neo4j_schema::topology::PatternSet;

fn row(label: &str, property: &str, types: &[&str], required: bool) -> NodeRow {
    NodeRow {
        labels: vec![label.to_string()],
        property: Some(property.to_string()),
        types: types.iter().map(|name| name.to_string()).collect::<IndexSet<String>>(),
        required,
    }
}

fn table() -> PropTable {
    let rows = vec![
        row("Person", "name", &["STRING NOT NULL"], true),
        row("Person", "born", &["INTEGER", "STRING"], false),
        row("Movie", "title", &["STRING"], true),
        row("Movie", "odd", &["SHAPE", "STRING"], true),
        row("Void", "odd", &["SHAPE"], true),
        row("Void", "none", &[], true),
    ];
    collect_node_props(&rows, false, &Scope::everything())
}

fn prop(name: &str, type_str: &str, required: bool, annotation: Annotation) -> ResolvedProp {
    ResolvedProp {
        name: name.to_string(),
        type_str: type_str.to_string(),
        required,
        annotation,
    }
}

fn section(entries: Vec<(&str, Vec<ResolvedProp>)>) -> Section {
    let mut section = Section::new();
    for (entity, props) in entries {
        section.insert(entity.to_string(), props);
    }
    section
}

fn render(nodes: &Section, rels: &Section, patterns: &PatternSet) -> String {
    MarkdownRenderer.render(nodes, rels, patterns)
}

#[test]
fn tasks_go_by_entity_and_name() {
    let tasks = plan_annotations(&table());
    let seen: Vec<(&str, &str, &str, bool, Option<DataType>)> = tasks
        .iter()
        .map(|t| (t.entity.as_str(), t.name.as_str(), t.type_str.as_str(), t.required, t.primary))
        .collect();
    assert_eq!(
        seen,
        vec![
            ("Movie", "odd", "SHAPE | STRING", true, None),
            ("Movie", "title", "STRING", true, Some(DataType::String)),
            ("Person", "born", "INTEGER | STRING", false, Some(DataType::Integer)),
            ("Person", "name", "STRING NOT NULL", true, Some(DataType::String)),
            ("Void", "none", "", true, None),
            ("Void", "odd", "SHAPE", true, None),
        ]
    );
}

#[test]
fn tasks_ask_for_their_own_property() {
    let tasks = plan_annotations(&table());
    match tasks[1].first_step(EntityKind::Node) {
        AnnotationStep::AskExample(query) => assert_eq!(
            query,
            "MATCH (target:`Movie`) WHERE target.`title` IS NOT NULL \
             RETURN target.`title` AS v LIMIT 1"
        ),
        other => panic!("{other:?}"),
    }
    match tasks[2].first_step(EntityKind::Relationship) {
        AnnotationStep::AskRange(query) => assert_eq!(
            query,
            "MATCH ()-[targetPerson]->() WHERE target.`born` IS NOT NULL \
             RETURN toString(min(target.`born`)) AS mn, \
             toString(max(target.`born`)) AS mx"
        ),
        other => panic!("{other:?}"),
    }
}

#[test]
fn tasks_without_a_known_type_ask_nothing() {
    let tasks = plan_annotations(&table());
    for i in [0, 4, 5] {
        for kind in [EntityKind::Node, EntityKind::Relationship] {
            assert!(matches!(
                tasks[i].first_step(kind),
                AnnotationStep::Settled(Annotation::Nothing)
            ));
        }
    }
}

#[test]
fn fixed_queries_name_their_columns() {
    let words = |query: &str| query.split_whitespace().collect::<Vec<_>>().join(" ");
    assert_eq!(
        words(NODE_PROPS_QUERY),
        "CALL db.schema.nodeTypeProperties() \
         YIELD nodeLabels, propertyName, propertyTypes, mandatory \
         RETURN nodeLabels AS Label, propertyName AS Property, \
         propertyTypes AS Type, mandatory AS Required \
         ORDER BY Label, Property"
    );
    assert_eq!(
        words(REL_PROPS_QUERY),
        "CALL db.schema.relTypeProperties() \
         YIELD relType, propertyName, propertyTypes, mandatory \
         RETURN relType AS Relationship, propertyName AS Property, \
         propertyTypes AS Type, mandatory AS Required \
         ORDER BY relType, Property"
    );
    assert_eq!(
        words(PATTERNS_QUERY),
        "CALL db.schema.visualization() YIELD relationships \
         UNWIND relationships AS rel \
         WITH startNode(rel) AS s, type(rel) AS t, endNode(rel) AS e \
         RETURN labels(s) AS StartNode, t AS Relationship, labels(e) AS EndNode"
    );
}

#[test]
fn annotations_go_to_their_properties() {
    let tasks = plan_annotations(&table());
    let annotations = vec![
        Annotation::Nothing,
        Annotation::Example("\"Heat\"".to_string()),
        Annotation::MinMax("1900".to_string(), "2000".to_string()),
        Annotation::Nothing,
        Annotation::Nothing,
        Annotation::Nothing,
    ];
    let nodes = resolve_annotations(&tasks, &annotations);
    assert_eq!(
        render(&nodes, &Section::new(), &PatternSet::new()),
        "Node properties:\n\
         - **Movie**\n\
         \x20 - `odd`: SHAPE | STRING REQUIRED\n\
         \x20 - `title`: STRING REQUIRED Example: \"Heat\"\n\
         - **Person**\n\
         \x20 - `born`: INTEGER | STRING Min: 1900, Max: 2000\n\
         \x20 - `name`: STRING NOT NULL REQUIRED\n\
         - **Void**\n\
         \x20 - `none`:  REQUIRED\n\
         \x20 - `odd`: SHAPE REQUIRED\n\
         \n\
         Relationship properties:\n\
         \n\
         The relationships:\n"
    );
}

#[test]
fn tasks_without_annotation_are_left_out() {
    let tasks = plan_annotations(&table());
    let nodes = resolve_annotations(&tasks, &vec![Annotation::Nothing]);
    assert_eq!(nodes.len(), 1);
    assert_eq!(nodes.key(0), "Movie");
    assert_eq!(nodes.value(0).len(), 1);
    assert_eq!(nodes.value(0)[0].name, "odd");
    assert_eq!(resolve_annotations(&vec![], &vec![Annotation::Nothing]).len(), 0);
}

#[test]
fn without_examples_there_are_no_annotations() {
    let nodes = resolve_without_examples(&table());
    let mut names = Vec::new();
    for i in 0..nodes.len() {
        for entry in nodes.value(i) {
            assert!(matches!(entry.annotation, Annotation::Nothing));
            names.push((nodes.key(i).as_str(), entry.name.as_str()));
        }
    }
    assert_eq!(
        names,
        vec![
            ("Movie", "odd"),
            ("Movie", "title"),
            ("Person", "born"),
            ("Person", "name"),
            ("Void", "none"),
            ("Void", "odd"),
        ]
    );
}

#[test]
fn a_property_of_an_unknown_type_is_listed() {
    let rows = vec![row("L", "k", &["VECTOR"], true)];
    let nodes = resolve_without_examples(&collect_node_props(&rows, false, &Scope::everything()));
    assert_eq!(nodes.len(), 1);
    assert_eq!(nodes.key(0), "L");
    let entries = nodes.value(0);
    assert_eq!(entries.len(), 1);
    assert_eq!(entries[0].name, "k");
    assert_eq!(entries[0].type_str, "VECTOR");
    assert!(entries[0].required);
    assert!(matches!(entries[0].annotation, Annotation::Nothing));
}

#[test]
fn suffixes_follow_the_annotation() {
    assert_eq!(
        MarkdownRenderer::annotation_suffix(&Annotation::Example("\"x\"".to_string())),
        " Example: \"x\""
    );
    assert_eq!(
        MarkdownRenderer::annotation_suffix(&Annotation::MinMax(
            "false".to_string(),
            "true".to_string()
        )),
        " Min: false, Max: true"
    );
    assert_eq!(MarkdownRenderer::annotation_suffix(&Annotation::Nothing), "");
}

#[test]
fn renders_the_documented_lines() {
    let nodes = section(vec![(
        "PubMedArticle",
        vec![
            prop(
                "pmid",
                "INTEGER NOT NULL",
                true,
                Annotation::MinMax("1".to_string(), "41610285".to_string()),
            ),
            prop(
                "title",
                "STRING NOT NULL",
                false,
                Annotation::Example(
                    "\"Physiological measurements of work stress in medical nursing.\"".to_string(),
                ),
            ),
        ],
    )]);
    let rels = section(vec![
        (
            ":`HAS_MESH`",
            vec![prop(
                "qualifierMajorTopics",
                "LIST<STRING NOT NULL> NOT NULL",
                false,
                Annotation::Example("[\"Q000187\"]".to_string()),
            )],
        ),
        (
            ":`HAS_CONCEPT`",
            vec![prop(
                "isPreferred",
                "BOOLEAN NOT NULL",
                true,
                Annotation::MinMax("false".to_string(), "true".to_string()),
            )],
        ),
    ]);
    let mut patterns = PatternSet::new();
    for (start, rel, end) in [
        ("PubMedArticle", "CITES", "PubMedArticle"),
        ("MeSHDescriptor", "HAS_CONCEPT", "MeSHConcept"),
    ] {
        patterns.insert((start.to_string(), rel.to_string(), end.to_string()));
    }
    assert_eq!(
        render(&nodes, &rels, &patterns),
        "Node properties:\n\
         - **PubMedArticle**\n\
         \x20 - `pmid`: INTEGER NOT NULL REQUIRED Min: 1, Max: 41610285\n\
         \x20 - `title`: STRING NOT NULL Example: \"Physiological measurements of work stress in \
         medical nursing.\"\n\
         \n\
         Relationship properties:\n\
         - **`HAS_CONCEPT`**\n\
         \x20 - `isPreferred`: BOOLEAN NOT NULL REQUIRED Min: false, Max: true\n\
         - **`HAS_MESH`**\n\
         \x20 - `qualifierMajorTopics`: LIST<STRING NOT NULL> NOT NULL Example: [\"Q000187\"]\n\
         \n\
         The relationships:\n\
         (:MeSHDescriptor)-([:HAS_CONCEPT])-> (:MeSHConcept)\n\
         (:PubMedArticle)-([:CITES])-> (:PubMedArticle)\n"
    );
}

#[test]
fn reported_relationship_types_have_the_documented_header() {
    let rows = vec![RelRow {
        rel_type: ":`HAS_CONCEPT`".to_string(),
        property: Some("isPreferred".to_string()),
        types: IndexSet::from(["BOOLEAN NOT NULL".to_string()]),
        required: true,
    }];
    let table = collect_rel_props(&rows, &Scope::everything());
    assert_eq!(table.key(0), ":`HAS_CONCEPT`");
    assert_eq!(
        render(&Section::new(), &resolve_without_examples(&table), &PatternSet::new()),
        "Node properties:\n\
         \n\
         Relationship properties:\n\
         - **`HAS_CONCEPT`**\n\
         \x20 - `isPreferred`: BOOLEAN NOT NULL REQUIRED\n\
         \n\
         The relationships:\n"
    );
    let tasks = plan_annotations(&table);
    match tasks[0].first_step(EntityKind::Relationship) {
        AnnotationStep::AskRange(query) => {
            assert!(query.starts_with("MATCH ()-[target:`HAS_CONCEPT`]->() "))
        }
        other => panic!("{other:?}"),
    }
    let range = vec![Annotation::MinMax("false".to_string(), "true".to_string())];
    assert_eq!(
        render(&Section::new(), &resolve_annotations(&tasks, &range), &PatternSet::new()),
        "Node properties:\n\
         \n\
         Relationship properties:\n\
         - **`HAS_CONCEPT`**\n\
         \x20 - `isPreferred`: BOOLEAN NOT NULL REQUIRED Min: false, Max: true\n\
         \n\
         The relationships:\n"
    );
}

#[test]
fn only_one_leading_colon_of_a_relationship_type_is_dropped() {
    let odd = || {
        section(
            [":", "::`A`", "B:"]
                .into_iter()
                .map(|key| (key, vec![]))
                .collect(),
        )
    };
    assert_eq!(
        render(&odd(), &odd(), &PatternSet::new()),
        "Node properties:\n\
         - **:**\n\
         - **::`A`**\n\
         - **B:**\n\
         \n\
         Relationship properties:\n\
         - ****\n\
         - **:`A`**\n\
         - **B:**\n\
         \n\
         The relationships:\n"
    );
}

#[test]
fn copies_render_alike() {
    let entry = prop("p", "INT", true, Annotation::Example("7".to_string()));
    let copy = section(vec![("A", vec![entry.clone()])]);
    let first = section(vec![("A", vec![entry])]);
    let none = PatternSet::new();
    assert_eq!(
        render(&first, &Section::new(), &none),
        render(&copy, &Section::new(), &none)
    );
}
