//! What `twrit list` prints: every rule, who holds it, and whether that
//! holder is still there.

#![allow(dead_code)]

use twrit::workspace::{
    Dependency, Edge, Member, Metadata, Node, Package, SourceFile, Sources, Workspace,
};
use twrit::writ::{Element, Entry, Value, Writ};

fn text(s: &str) -> Value {
    Value::Text(s.to_string())
}

fn list(items: &[&str]) -> Value {
    Value::List(items.iter().map(|s| text(s)).collect(), format!("Seq({items:?})"))
}

fn table(entries: Vec<(&str, Value)>) -> Value {
    Value::Table(
        entries.into_iter().map(|(k, v)| (k.to_string(), v)).collect(),
        "Map([..])".to_string(),
    )
}

fn guard(holder: &str, what: &str) -> (&'static str, Value) {
    ("guard", table(vec![(Box::leak(holder.to_string().into_boxed_str()), text(what))]))
}

fn rule(id: &str, group: Vec<(&str, Value)>) -> Element {
    Element {
        args: Some(text(id)),
        group: Some(group.into_iter().map(|(k, v)| Entry::Pair(k.to_string(), v)).collect()),
    }
}

fn writ(path: &str, elements: Vec<Element>) -> Writ {
    Writ { path: path.to_string(), elements }
}

fn member(name: &str, dir: &str, deps: &[(&str, bool)]) -> Member {
    Member {
        name: name.to_string(),
        id: format!("{name} 0.1.0"),
        dir: Some(dir.to_string()),
        dependencies: deps
            .iter()
            .map(|(n, normal)| Dependency { name: n.to_string(), normal: *normal })
            .collect(),
    }
}

fn package(name: &str) -> Package {
    Package { id: format!("{name} 0.1.0"), name: name.to_string() }
}

fn node(name: &str, deps: &[&str]) -> Node {
    Node {
        id: format!("{name} 0.1.0"),
        deps: deps.iter().map(|d| Edge { pkg: format!("{d} 0.1.0"), normal: true }).collect(),
    }
}

fn source(dir: &str, files: &[(&str, &str)]) -> Sources {
    Sources {
        dir: dir.to_string(),
        files: Ok(files
            .iter()
            .map(|(p, t)| SourceFile { path: p.to_string(), text: t.to_string() })
            .collect()),
    }
}

/// A workspace whose members come from `members`, asked twice as cargo is.
fn workspace(
    members: &dyn Fn() -> Vec<Member>,
    packages: &dyn Fn() -> Vec<Package>,
    nodes: Option<&dyn Fn() -> Vec<Node>>,
    sources: Vec<Sources>,
) -> Workspace {
    Workspace {
        plain: Ok(Metadata { members: members(), packages: packages(), resolve: None }),
        resolved: Ok(Metadata {
            members: members(),
            packages: packages(),
            resolve: nodes.map(|n| n()),
        }),
        sources,
        trees: vec![],
    }
}

#[test]
fn every_rule_is_listed_with_its_holder() {
    // Four spellings of a guard; `renamed-away` points at a test that is
    // gone, which the caller found out and hands in as missing.
    let w = writ(
        "guard-kinds/.writ.tmt",
        vec![
            rule("crate-layering", vec![guard("twrit", "layers")]),
            rule("generated-md-not-edited", vec![guard("runs", "just docs-check")]),
            rule("no-vocabulary", vec![guard("test", "tests/src/present.rs")]),
            rule("renamed-away", vec![guard("test", "tests/src/gone.rs")]),
            rule("blueprint-shape", vec![guard("none", "no cheap check for the args shape yet")]),
        ],
    );
    let listing = twrit::list(
        "guard-kinds".to_string(),
        vec![w],
        &vec!["tests/src/gone.rs".to_string()],
    )
    .unwrap();
    assert_eq!(
        listing.render(),
        "\
crate-layering           twrit  layers
generated-md-not-edited  runs   just docs-check
no-vocabulary            test   tests/src/present.rs
renamed-away             test   tests/src/gone.rs -- MISSING
blueprint-shape          none   no cheap check for the args shape yet

1 writ, 5 rules (1 unguarded), 1 dead guard
"
    );
}

#[test]
fn a_repository_with_no_writ_says_so() {
    let dir = "/repo/tests/fixtures/no-writ";
    let listing = twrit::list(dir.to_string(), vec![], &vec![]).unwrap();
    assert_eq!(listing.render(), format!("no .writ.tmt found under {}\n", dir));
}

#[test]
fn a_listing_counts_what_it_lists() {
    let w = writ(
        "counts/.writ.tmt",
        vec![
            rule("a", vec![guard("test", "tests/a.rs")]),
            rule("b", vec![guard("test", "tests/b.rs")]),
        ],
    );
    let missing = vec!["tests/a.rs".to_string(), "tests/b.rs".to_string()];
    let listing = twrit::list("counts".to_string(), vec![w], &missing).unwrap();
    assert_eq!(listing.writ_count(), 1);
    assert_eq!(listing.dead_count(), 2);
    assert_eq!(listing.rules().len(), 2);
    assert_eq!(
        listing.render(),
        "a  test  tests/a.rs -- MISSING\nb  test  tests/b.rs -- MISSING\n\n1 writ, 2 rules, 2 dead guards\n"
    );
}

#[test]
fn a_listing_refuses_a_rule_it_cannot_read() {
    let w = writ(
        "bad/.writ.tmt",
        vec![Element { args: Some(text("lonely")), group: None }],
    );
    let err = twrit::list("bad".to_string(), vec![w], &vec![]).err().unwrap();
    assert_eq!(err, "bad/.writ.tmt: `@rule(lonely)` has no `{...}` group, so it declares neither a guard nor parameters");
}
