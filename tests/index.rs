use rino::Indexes;
use std::collections::{BTreeMap, BTreeSet};

fn snapshot(ix: &Indexes) -> BTreeMap<String, BTreeSet<String>> {
    ix.entries()
        .iter()
        .map(|e| (e.word.clone(), e.paths.iter().cloned().collect()))
        .collect()
}

fn set(paths: &[&str]) -> BTreeSet<String> {
    paths.iter().map(|p| p.to_string()).collect()
}

#[test]
fn two_files_scenario() {
    let mut ix = Indexes::new();
    ix.add_file("a.txt", "the cat sat");
    ix.add_file("b.txt", "the dog sat");
    let snap = snapshot(&ix);
    assert_eq!(snap.len(), 4);
    assert_eq!(snap["the"], set(&["a.txt", "b.txt"]));
    assert_eq!(snap["cat"], set(&["a.txt"]));
    assert_eq!(snap["sat"], set(&["a.txt", "b.txt"]));
    assert_eq!(snap["dog"], set(&["b.txt"]));
}

#[test]
fn repeated_word_has_one_membership() {
    let mut ix = Indexes::new();
    ix.add_file("f.txt", "hello, world! 123 hello");
    assert_eq!(ix.paths_of("hello").unwrap(), &vec!["f.txt".to_string()]);
    assert_eq!(ix.paths_of("world").unwrap(), &vec!["f.txt".to_string()]);
    assert_eq!(ix.entries().len(), 2);
}

#[test]
fn empty_file_adds_nothing() {
    let mut ix = Indexes::new();
    ix.add_file("empty.txt", "");
    assert!(ix.entries().is_empty());
    ix.add_file("digits.txt", "123 456");
    assert!(ix.entries().is_empty());
}

#[test]
fn no_files_give_empty_json_object() {
    let ix = Indexes::new();
    let snap = snapshot(&ix);
    assert!(snap.is_empty());
    assert_eq!(serde_json::to_string(&snap).unwrap(), "{}");
}

#[test]
fn case_sensitive_keys() {
    let mut ix = Indexes::new();
    ix.add_file("c.txt", "Cat cat");
    let snap = snapshot(&ix);
    assert_eq!(snap.len(), 2);
    assert_eq!(snap["Cat"], set(&["c.txt"]));
    assert_eq!(snap["cat"], set(&["c.txt"]));
}

#[test]
fn adding_a_file_twice_changes_nothing() {
    let mut once = Indexes::new();
    once.add_file("a.txt", "the cat sat on the mat");
    let mut twice = Indexes::new();
    twice.add_file("a.txt", "the cat sat on the mat");
    twice.add_file("a.txt", "the cat sat on the mat");
    assert_eq!(snapshot(&once), snapshot(&twice));
    assert_eq!(twice.paths_of("the").unwrap().len(), 1);
}

#[test]
fn missing_word_has_no_paths() {
    let mut ix = Indexes::new();
    ix.add_file("a.txt", "alpha beta");
    assert!(ix.paths_of("gamma").is_none());
    assert!(ix.paths_of("alph").is_none());
}

#[test]
fn indexed_words_come_from_the_file() {
    let mut ix = Indexes::new();
    ix.add_file("a.txt", "red,green");
    ix.add_file("b.txt", "green blue");
    let snap = snapshot(&ix);
    assert_eq!(snap["red"], set(&["a.txt"]));
    assert_eq!(snap["green"], set(&["a.txt", "b.txt"]));
    assert_eq!(snap["blue"], set(&["b.txt"]));
    assert_eq!(snap.len(), 3);
}
