//! Reading writs, before any rule looks at one.

#![allow(dead_code)]

use twrit::workspace::{
    Dependency, Edge, Member, Metadata, Node, Package, SourceFile, Sources, Workspace,
};
use twrit::writ::{Element, Entry, Value, Writ};

fn text(s: &str) -> Value {
    Value::Text(s.to_string())
}

fn list(items: &[&str]) -> Value {
    Value::List(items.iter().map(|s| text(s)).collect(), format!("Seq({items:?})"))
}

fn table(entries: Vec<(&str, Value)>) -> Value {
    Value::Table(
        entries.into_iter().map(|(k, v)| (k.to_string(), v)).collect(),
        "Map([..])".to_string(),
    )
}

fn guard(holder: &str, what: &str) -> (&'static str, Value) {
    ("guard", table(vec![(Box::leak(holder.to_string().into_boxed_str()), text(what))]))
}

fn rule(id: &str, group: Vec<(&str, Value)>) -> Element {
    Element {
        args: Some(text(id)),
        group: Some(group.into_iter().map(|(k, v)| Entry::Pair(k.to_string(), v)).collect()),
    }
}

fn writ(path: &str, elements: Vec<Element>) -> Writ {
    Writ { path: path.to_string(), elements }
}

fn member(name: &str, dir: &str, deps: &[(&str, bool)]) -> Member {
    Member {
        name: name.to_string(),
        id: format!("{name} 0.1.0"),
        dir: Some(dir.to_string()),
        dependencies: deps
            .iter()
            .map(|(n, normal)| Dependency { name: n.to_string(), normal: *normal })
            .collect(),
    }
}

fn package(name: &str) -> Package {
    Package { id: format!("{name} 0.1.0"), name: name.to_string() }
}

fn node(name: &str, deps: &[&str]) -> Node {
    Node {
        id: format!("{name} 0.1.0"),
        deps: deps.iter().map(|d| Edge { pkg: format!("{d} 0.1.0"), normal: true }).collect(),
    }
}

fn source(dir: &str, files: &[(&str, &str)]) -> Sources {
    Sources {
        dir: dir.to_string(),
        files: Ok(files
            .iter()
            .map(|(p, t)| SourceFile { path: p.to_string(), text: t.to_string() })
            .collect()),
    }
}

/// A workspace whose members come from `members`, asked twice as cargo is.
fn workspace(
    members: &dyn Fn() -> Vec<Member>,
    packages: &dyn Fn() -> Vec<Package>,
    nodes: Option<&dyn Fn() -> Vec<Node>>,
    sources: Vec<Sources>,
) -> Workspace {
    Workspace {
        plain: Ok(Metadata { members: members(), packages: packages(), resolve: None }),
        resolved: Ok(Metadata {
            members: members(),
            packages: packages(),
            resolve: nodes.map(|n| n()),
        }),
        sources,
        trees: vec![],
    }
}

#[test]
fn a_directory_with_no_writ_is_not_a_failure() {
    // A repository that has written no rules down has broken none, and
    // says so rather than printing nothing.
    let dir = "/repo/tests/fixtures/no-writ";
    let ws = workspace(&|| vec![], &|| vec![], None, vec![]);
    let report = twrit::check(dir.to_string(), vec![], &ws, &vec![]).unwrap();
    assert_eq!(report.render(), format!("no .writ.tmt found under {}\n", dir));
}

#[test]
fn the_rules_of_every_writ_are_read_in_order() {
    let a = writ("a/.writ.tmt", vec![rule("first", vec![guard("runs", "x")])]);
    let b = writ(
        "b/.writ.tmt",
        vec![
            rule("second", vec![guard("twrit", "door")]),
            rule("third", vec![guard("test", "t.rs")]),
        ],
    );
    let rules = twrit::writ::declared_rules(vec![a, b]).unwrap();
    let ids: Vec<&str> = rules.iter().map(|r| r.id.as_str()).collect();
    assert_eq!(ids, vec!["first", "second", "third"]);
    assert_eq!(rules[1].path, "b/.writ.tmt");
}

#[test]
fn only_the_rules_of_one_kind_are_kept() {
    let a = writ(
        "a/.writ.tmt",
        vec![
            rule("one", vec![guard("twrit", "door")]),
            rule("two", vec![guard("twrit", "pure")]),
            rule("three", vec![guard("twrit", "door")]),
            rule("four", vec![guard("runs", "door")]),
        ],
    );
    let rules = twrit::writ::twrit_rules(vec![a], "door").unwrap();
    let ids: Vec<&str> = rules.iter().map(|r| r.id.as_str()).collect();
    assert_eq!(ids, vec!["one", "three"]);
}

#[test]
fn a_rule_whose_id_is_not_a_name_is_refused() {
    let w = writ(
        "w/.writ.tmt",
        vec![Element { args: Some(list(&["x"])), group: Some(vec![]) }],
    );
    let err = twrit::writ::declared_rules(vec![w]).err().unwrap();
    assert!(err.starts_with("w/.writ.tmt: `@rule`'s id is not a bare name: "), "{err}");
}

#[test]
fn a_rule_with_no_id_is_refused() {
    let w = writ("w/.writ.tmt", vec![Element { args: None, group: Some(vec![]) }]);
    let err = twrit::writ::declared_rules(vec![w]).err().unwrap();
    assert_eq!(err, "w/.writ.tmt: a `@rule` carries no id; the heading is prose and cannot serve as one");
}

#[test]
fn a_string_list_is_read_in_order() {
    let got = twrit::writ::strings("`pure`", "crates", &list(&["b", "a"])).unwrap();
    assert_eq!(got, vec!["b".to_string(), "a".to_string()]);
    let err = twrit::writ::strings("`pure`", "crates", &text("x")).err().unwrap();
    assert_eq!(err, "`pure`'s `crates` is not a list");
}
