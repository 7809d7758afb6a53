use neo4j_schema::annotation::Annotation;
use neo4j_schema::resolve::{ResolvedProp, Section};
use neo4j_schema::scope::Scope;
use neo4j_schema::topology::{collect_patterns, PatternRow, PatternSet};

fn row(start: &[&str], rel: &str, end: &[&str]) -> PatternRow {
    PatternRow {
        start: start.iter().map(|label| label.to_string()).collect(),
        rel: rel.to_string(),
        end: end.iter().map(|label| label.to_string()).collect(),
    }
}

fn rows() -> Vec<PatternRow> {
    vec![
        row(&["Person"], "ACTED_IN", &["Movie"]),
        row(&["Person", "Actor"], "ACTED_IN", &["Movie"]),
        row(&["Movie"], "IN_GENRE", &["Genre"]),
        row(&["Person"], "ACTED_IN", &["Movie"]),
        row(&["Person"], "ACTED_IN", &["Clip"]),
        row(&[], "LOST", &["Movie"]),
        row(&["Movie"], "LOST", &[]),
    ]
}

fn listed(set: &PatternSet) -> Vec<(String, String, String)> {
    (0..set.len()).map(|i| set.pattern(i).clone()).collect()
}

fn pattern(start: &str, rel: &str, end: &str) -> (String, String, String) {
    (start.to_string(), rel.to_string(), end.to_string())
}

fn section(labels: &[&str]) -> Section {
    let mut section: Section = Section::new();
    for label in labels {
        let props = vec![ResolvedProp {
            name: "p".to_string(),
            type_str: "INT".to_string(),
            required: false,
            annotation: Annotation::Nothing,
        }];
        section.insert(label.to_string(), props);
    }
    section
}

#[test]
fn patterns_are_ordered_and_listed_once() {
    let all = Scope::everything();
    assert_eq!(
        listed(&collect_patterns(&rows(), None, &all, &all)),
        vec![
            pattern("Movie", "IN_GENRE", "Genre"),
            pattern("Person", "ACTED_IN", "Clip"),
            pattern("Person", "ACTED_IN", "Movie"),
            pattern("Person:Actor", "ACTED_IN", "Movie"),
        ]
    );
}

#[test]
fn undocumented_labels_do_not_stand_in_patterns() {
    let all = Scope::everything();
    let nodes = section(&["Actor", "Movie"]);
    assert_eq!(
        listed(&collect_patterns(&rows(), Some(&nodes), &all, &all)),
        vec![pattern("Actor", "ACTED_IN", "Movie")]
    );
}

#[test]
fn both_ends_have_to_be_in_scope() {
    let all = Scope::everything();
    let labels = Scope::of_list("Person:Movie");
    assert_eq!(
        listed(&collect_patterns(&rows(), None, &labels, &all)),
        vec![pattern("Person", "ACTED_IN", "Movie")]
    );
    let types = Scope::of_list("IN_GENRE:DIRECTED");
    assert_eq!(
        listed(&collect_patterns(&rows(), None, &all, &types)),
        vec![pattern("Movie", "IN_GENRE", "Genre")]
    );
    assert_eq!(
        listed(&collect_patterns(&rows(), None, &labels, &types)),
        vec![]
    );
}

#[test]
fn a_set_agrees_with_the_order_of_tuples() {
    let texts = ["", "a", "b", "é"];
    let mut set = PatternSet::new();
    let mut model = std::collections::BTreeSet::new();
    for start in ["b", "é", "a", ""] {
        for rel in texts {
            for end in ["é", "", "b"] {
                set.insert(pattern(start, rel, end));
                set.insert(pattern(start, rel, end));
                model.insert(pattern(start, rel, end));
            }
        }
    }
    assert_eq!(listed(&set), model.into_iter().collect::<Vec<_>>());
}
