//! What the `door` guard reports.

#![allow(dead_code)]

use twrit::workspace::{
    Dependency, Edge, Member, Metadata, Node, Package, SourceFile, Sources, Workspace,
};
use twrit::writ::{Element, Entry, Value, Writ};

fn text(s: &str) -> Value {
    Value::Text(s.to_string())
}

fn list(items: &[&str]) -> Value {
    Value::List(items.iter().map(|s| text(s)).collect(), format!("Seq({items:?})"))
}

fn table(entries: Vec<(&str, Value)>) -> Value {
    Value::Table(
        entries.into_iter().map(|(k, v)| (k.to_string(), v)).collect(),
        "Map([..])".to_string(),
    )
}

fn guard(holder: &str, what: &str) -> (&'static str, Value) {
    ("guard", table(vec![(Box::leak(holder.to_string().into_boxed_str()), text(what))]))
}

fn rule(id: &str, group: Vec<(&str, Value)>) -> Element {
    Element {
        args: Some(text(id)),
        group: Some(group.into_iter().map(|(k, v)| Entry::Pair(k.to_string(), v)).collect()),
    }
}

fn writ(path: &str, elements: Vec<Element>) -> Writ {
    Writ { path: path.to_string(), elements }
}

fn member(name: &str, dir: &str, deps: &[(&str, bool)]) -> Member {
    Member {
        name: name.to_string(),
        id: format!("{name} 0.1.0"),
        dir: Some(dir.to_string()),
        dependencies: deps
            .iter()
            .map(|(n, normal)| Dependency { name: n.to_string(), normal: *normal })
            .collect(),
    }
}

fn package(name: &str) -> Package {
    Package { id: format!("{name} 0.1.0"), name: name.to_string() }
}

fn node(name: &str, deps: &[&str]) -> Node {
    Node {
        id: format!("{name} 0.1.0"),
        deps: deps.iter().map(|d| Edge { pkg: format!("{d} 0.1.0"), normal: true }).collect(),
    }
}

fn source(dir: &str, files: &[(&str, &str)]) -> Sources {
    Sources {
        dir: dir.to_string(),
        files: Ok(files
            .iter()
            .map(|(p, t)| SourceFile { path: p.to_string(), text: t.to_string() })
            .collect()),
    }
}

/// A workspace whose members come from `members`, asked twice as cargo is.
fn workspace(
    members: &dyn Fn() -> Vec<Member>,
    packages: &dyn Fn() -> Vec<Package>,
    nodes: Option<&dyn Fn() -> Vec<Node>>,
    sources: Vec<Sources>,
) -> Workspace {
    Workspace {
        plain: Ok(Metadata { members: members(), packages: packages(), resolve: None }),
        resolved: Ok(Metadata {
            members: members(),
            packages: packages(),
            resolve: nodes.map(|n| n()),
        }),
        sources,
        trees: vec![],
    }
}

const READER: &str = "pub fn read(p: &str) -> String {\n    std::fs::read_to_string(p).unwrap_or_default()\n}\n";
const OTHER: &str = "// Not on the list, and reaching for the door anyway.\npub fn peek(p: &str) -> bool {\n    std::fs::metadata(p).is_ok()\n}\n";

#[test]
fn a_crate_not_on_the_list_is_reported() {
    // `other` is not the door and reaches through it anyway. The file is
    // named because the fix is in a line, not in a crate.
    let w = writ(
        "door-unlisted/.writ.tmt",
        vec![rule(
            "file-io",
            vec![
                guard("twrit", "door"),
                ("door", table(vec![("names", list(&["std::fs"])), ("allowed", list(&["reader"]))])),
            ],
        )],
    );
    let ws = workspace(
        &|| vec![member("reader", "reader", &[]), member("other", "other", &[])],
        &|| vec![package("reader"), package("other")],
        None,
        vec![
            source("reader", &[("reader/src/lib.rs", READER)]),
            source("other", &[("other/src/lib.rs", OTHER)]),
        ],
    );
    let report = twrit::check("door-unlisted".to_string(), vec![w], &ws, &vec![]).unwrap();
    assert_eq!(
        report.render(),
        "file-io: other is not a std::fs door, and names it in other/src/lib.rs\n\
         1 writ, 1 rule, file-io: 1 violation (2 members)\n"
    );
}
