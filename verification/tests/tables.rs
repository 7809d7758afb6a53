use indexmap::IndexSet;
use neo4j_schema::props::{
    collect_node_props, collect_rel_props, NodeRow, PropInfo, PropTable, RelRow,
};
use neo4j_schema::scope::Scope;

fn types(names: &[&str]) -> IndexSet<String> {
    names.iter().map(|name| name.to_string()).collect()
}

fn node_row(labels: &[&str], property: Option<&str>, names: &[&str], required: bool) -> NodeRow {
    NodeRow {
        labels: labels.iter().map(|label| label.to_string()).collect(),
        property: property.map(|name| name.to_string()),
        types: types(names),
        required,
    }
}

fn rel_row(rel_type: &str, property: Option<&str>, names: &[&str], required: bool) -> RelRow {
    RelRow {
        rel_type: rel_type.to_string(),
        property: property.map(|name| name.to_string()),
        types: types(names),
        required,
    }
}

/// All cells of a table: entity, property, types in their order, required.
fn cells(table: &PropTable) -> Vec<(String, String, Vec<String>, bool)> {
    let mut all = Vec::new();
    for i in 0..table.len() {
        let props = table.value(i);
        for j in 0..props.len() {
            let info: &PropInfo = props.value(j);
            all.push((
                table.key(i).clone(),
                props.key(j).clone(),
                info.types.iter().cloned().collect(),
                info.required,
            ));
        }
    }
    all
}

fn cell(entity: &str, name: &str, names: &[&str], required: bool) -> (String, String, Vec<String>, bool) {
    (
        entity.to_string(),
        name.to_string(),
        names.iter().map(|name| name.to_string()).collect(),
        required,
    )
}

#[test]
fn every_label_gets_its_own_entry() {
    let rows = vec![
        node_row(&["Person", "Actor"], Some("name"), &["STRING NOT NULL"], true),
        node_row(&["Movie"], Some("title"), &["STRING"], false),
        node_row(&["Empty"], None, &[], false),
    ];
    let table = collect_node_props(&rows, false, &Scope::everything());
    assert_eq!(
        cells(&table),
        vec![
            cell("Actor", "name", &["STRING NOT NULL"], true),
            cell("Movie", "title", &["STRING"], false),
            cell("Person", "name", &["STRING NOT NULL"], true),
        ]
    );
    assert_eq!(table.len(), 3);
}

#[test]
fn reports_on_one_property_are_merged() {
    let rows = vec![
        node_row(&["A", "B"], Some("p"), &["STRING", "INTEGER"], true),
        node_row(&["A"], Some("p"), &["FLOAT", "STRING", "DATE"], true),
        node_row(&["B"], Some("p"), &["INTEGER"], false),
        node_row(&["B"], Some("p"), &["INTEGER"], true),
    ];
    let table = collect_node_props(&rows, false, &Scope::everything());
    assert_eq!(
        cells(&table),
        vec![
            cell("A", "p", &["STRING", "INTEGER", "FLOAT", "DATE"], true),
            cell("B", "p", &["STRING", "INTEGER"], false),
        ]
    );
}

#[test]
fn a_label_listed_twice_counts_once() {
    let rows = vec![
        node_row(&["A"], Some("p"), &["DATE"], true),
        node_row(&["A", "A"], Some("p"), &["STRING", "DATE"], true),
    ];
    let table = collect_node_props(&rows, false, &Scope::everything());
    assert_eq!(cells(&table), vec![cell("A", "p", &["DATE", "STRING"], true)]);
}

#[test]
fn a_label_combination_without_the_property_makes_it_optional() {
    let rows = vec![
        node_row(&["A"], Some("x"), &["INTEGER"], true),
        node_row(&["A", "B"], None, &[], false),
    ];
    let table = collect_node_props(&rows, false, &Scope::everything());
    assert_eq!(cells(&table), vec![cell("A", "x", &["INTEGER"], false)]);

    let rows = vec![
        node_row(&["A"], Some("x"), &["INTEGER"], true),
        node_row(&["A", "B"], Some("y"), &["DATE"], true),
        node_row(&["A", "B"], Some("z"), &["DATE"], true),
    ];
    let table = collect_node_props(&rows, false, &Scope::everything());
    assert_eq!(
        cells(&table),
        vec![
            cell("A", "x", &["INTEGER"], false),
            cell("A", "y", &["DATE"], false),
            cell("A", "z", &["DATE"], false),
            cell("B", "y", &["DATE"], true),
            cell("B", "z", &["DATE"], true),
        ]
    );
}

#[test]
fn only_combinations_kept_for_the_label_count() {
    let rows = vec![
        node_row(&["A"], Some("x"), &["INTEGER"], true),
        node_row(&["A", "B"], None, &[], false),
        node_row(&["C"], Some("y"), &["DATE"], true),
    ];
    let strict = collect_node_props(&rows, true, &Scope::everything());
    assert_eq!(
        cells(&strict),
        vec![
            cell("A", "x", &["INTEGER"], true),
            cell("C", "y", &["DATE"], true),
        ]
    );
    let scoped = collect_node_props(&rows, false, &Scope::of_list("A"));
    assert_eq!(cells(&scoped), vec![cell("A", "x", &["INTEGER"], false)]);
}

#[test]
fn a_relationship_property_is_required_if_all_its_rows_say_so() {
    let rows = vec![
        rel_row(":`R`", Some("x"), &["INTEGER"], true),
        rel_row(":`R`", Some("y"), &["DATE"], true),
        rel_row(":`R`", Some("y"), &["DATE"], false),
        rel_row(":`R`", None, &[], false),
    ];
    let table = collect_rel_props(&rows, &Scope::everything());
    assert_eq!(
        cells(&table),
        vec![
            cell(":`R`", "x", &["INTEGER"], true),
            cell(":`R`", "y", &["DATE"], false),
        ]
    );
}

#[test]
fn most_specific_keeps_the_last_label() {
    let rows = vec![
        node_row(&["Animal", "Mammal", "Dog"], Some("name"), &["STRING"], true),
        node_row(&["Animal"], Some("age"), &["INT"], false),
        node_row(&[], Some("lost"), &["INT"], false),
    ];
    let table = collect_node_props(&rows, true, &Scope::everything());
    assert_eq!(
        cells(&table),
        vec![
            cell("Animal", "age", &["INT"], false),
            cell("Dog", "name", &["STRING"], true),
        ]
    );
}

#[test]
fn labels_out_of_scope_get_no_entry() {
    let rows = vec![
        node_row(&["Person", "Actor"], Some("name"), &["STRING"], true),
        node_row(&["Movie"], Some("title"), &["STRING"], false),
        node_row(&["Genre"], Some("title"), &["STRING"], false),
    ];
    let table = collect_node_props(&rows, false, &Scope::of_list("Person:Movie"));
    assert_eq!(
        cells(&table),
        vec![
            cell("Movie", "title", &["STRING"], false),
            cell("Person", "name", &["STRING"], true),
        ]
    );
    let strict = collect_node_props(&rows, true, &Scope::of_list("Person:Movie"));
    assert_eq!(cells(&strict), vec![cell("Movie", "title", &["STRING"], false)]);
}

#[test]
fn relationship_types_are_kept_as_written() {
    let rows = vec![
        rel_row(":`ACTED_IN`", Some("roles"), &["LIST<STRING>"], true),
        rel_row(":`ACTED_IN`", Some("roles"), &["STRING"], true),
        rel_row(":`DIRECTED`", Some("year"), &["INT"], false),
        rel_row(":`KNOWS`", None, &[], false),
    ];
    let table = collect_rel_props(&rows, &Scope::everything());
    assert_eq!(
        cells(&table),
        vec![
            cell(":`ACTED_IN`", "roles", &["LIST<STRING>", "STRING"], true),
            cell(":`DIRECTED`", "year", &["INT"], false),
        ]
    );
    let some = collect_rel_props(&rows, &Scope::of_list("DIRECTED"));
    assert_eq!(cells(&some), vec![cell(":`DIRECTED`", "year", &["INT"], false)]);
}

#[test]
fn no_rows_no_entries() {
    assert_eq!(collect_node_props(&vec![], false, &Scope::everything()).len(), 0);
    assert_eq!(collect_rel_props(&vec![], &Scope::everything()).len(), 0);
}

#[test]
fn a_copy_of_an_info_says_the_same() {
    let info = PropInfo {
        types: types(&["B", "A"]),
        required: true,
    };
    let copy = info.clone();
    assert_eq!(copy.types.iter().collect::<Vec<_>>(), vec!["B", "A"]);
    assert!(copy.required);
}
