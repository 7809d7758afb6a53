use neo4j_schema::order::{place, Place};
use neo4j_schema::scope::Scope;
use neo4j_schema::text::{
    characters, contains_text, join, same_text, same_texts, split, starts_with, strip_suffix,
};

const TEXTS: [&str; 11] = [
    "", "A", "AB", "B", "a", "ab", "\u{7f}", "é", "日本", "\u{ffff}", "😀",
];

#[test]
fn places_agree_with_str() {
    for a in TEXTS {
        for b in TEXTS {
            let expected = if a < b {
                Place::Before
            } else if a == b {
                Place::Same
            } else {
                Place::After
            };
            assert_eq!(place(a, b), expected, "{a} {b}");
            assert_eq!(same_text(a, b), a == b);
            assert_eq!(starts_with(a, b), a.starts_with(b));
            assert_eq!(strip_suffix(a, b), a.strip_suffix(b));
        }
    }
}

#[test]
fn prefixes_and_suffixes() {
    assert!(starts_with("日本語", "日本"));
    assert!(!starts_with("日本", "日本語"));
    assert_eq!(strip_suffix("日本語", "語"), Some("日本"));
    assert_eq!(strip_suffix("語", "日本語"), None);
    assert_eq!(characters("aé"), vec!['a', 'é']);
}

#[test]
fn lists_of_texts() {
    let list = |text: &str| split(text, ',');
    assert!(contains_text(&list("a,é,b"), "é"));
    assert!(!contains_text(&list("a,é,b"), "e"));
    assert!(!contains_text(&vec![], ""));
    assert!(same_texts(&list("a,é"), &list("a,é")));
    assert!(!same_texts(&list("a,é"), &list("é,a")));
    assert!(!same_texts(&list("a,é"), &list("a")));
    assert!(same_texts(&vec![], &vec![]));
}

#[test]
fn splitting_and_joining() {
    assert_eq!(split("Person:Movie", ':'), vec!["Person", "Movie"]);
    assert_eq!(split("", ':'), vec![""]);
    assert_eq!(split(":é::", ':'), vec!["", "é", "", ""]);
    for text in ["Person:Movie", "", ":é::", "one"] {
        assert_eq!(join(&split(text, ':'), ":"), text);
    }
    assert_eq!(join(&vec![], ":"), "");
    assert_eq!(join(&vec!["a".to_string()], ":"), "a");
}

#[test]
fn everything_is_in_an_unlimited_scope() {
    let scope = Scope::everything();
    assert!(scope.admits("Person"));
    assert!(scope.admits(""));
    assert!(scope.admits_rel_type(":`ACTED_IN`"));
}

#[test]
fn a_list_limits_the_scope() {
    let labels = Scope::of_list("Person:Movie");
    assert!(labels.admits("Person"));
    assert!(labels.admits("Movie"));
    assert!(!labels.admits("Person:Movie"));
    assert!(!labels.admits("person"));
    assert!(!labels.admits(""));

    let types = Scope::of_list("ACTED_IN:DIRECTED");
    assert!(types.admits_rel_type(":`ACTED_IN`"));
    assert!(types.admits_rel_type("DIRECTED"));
    assert!(!types.admits_rel_type("`DIRECTED`"));
    assert!(!types.admits_rel_type(":`WROTE`"));
}
