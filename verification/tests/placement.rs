//! What the `placement` guard reports.

#![allow(dead_code)]

use twrit::workspace::{Placed, Tree};

use twrit::workspace::{
    Dependency, Edge, Member, Metadata, Node, Package, SourceFile, Sources, Workspace,
};
use twrit::writ::{Element, Entry, Value, Writ};

fn text(s: &str) -> Value {
    Value::Text(s.to_string())
}

fn list(items: &[&str]) -> Value {
    Value::List(items.iter().map(|s| text(s)).collect(), format!("Seq({items:?})"))
}

fn table(entries: Vec<(&str, Value)>) -> Value {
    Value::Table(
        entries.into_iter().map(|(k, v)| (k.to_string(), v)).collect(),
        "Map([..])".to_string(),
    )
}

fn guard(holder: &str, what: &str) -> (&'static str, Value) {
    ("guard", table(vec![(Box::leak(holder.to_string().into_boxed_str()), text(what))]))
}

fn rule(id: &str, group: Vec<(&str, Value)>) -> Element {
    Element {
        args: Some(text(id)),
        group: Some(group.into_iter().map(|(k, v)| Entry::Pair(k.to_string(), v)).collect()),
    }
}

fn writ(path: &str, elements: Vec<Element>) -> Writ {
    Writ { path: path.to_string(), elements }
}

fn member(name: &str, dir: &str, deps: &[(&str, bool)]) -> Member {
    Member {
        name: name.to_string(),
        id: format!("{name} 0.1.0"),
        dir: Some(dir.to_string()),
        dependencies: deps
            .iter()
            .map(|(n, normal)| Dependency { name: n.to_string(), normal: *normal })
            .collect(),
    }
}

fn package(name: &str) -> Package {
    Package { id: format!("{name} 0.1.0"), name: name.to_string() }
}

fn node(name: &str, deps: &[&str]) -> Node {
    Node {
        id: format!("{name} 0.1.0"),
        deps: deps.iter().map(|d| Edge { pkg: format!("{d} 0.1.0"), normal: true }).collect(),
    }
}

fn source(dir: &str, files: &[(&str, &str)]) -> Sources {
    Sources {
        dir: dir.to_string(),
        files: Ok(files
            .iter()
            .map(|(p, t)| SourceFile { path: p.to_string(), text: t.to_string() })
            .collect()),
    }
}

/// A workspace whose members come from `members`, asked twice as cargo is.
fn workspace(
    members: &dyn Fn() -> Vec<Member>,
    packages: &dyn Fn() -> Vec<Package>,
    nodes: Option<&dyn Fn() -> Vec<Node>>,
    sources: Vec<Sources>,
) -> Workspace {
    Workspace {
        plain: Ok(Metadata { members: members(), packages: packages(), resolve: None }),
        resolved: Ok(Metadata {
            members: members(),
            packages: packages(),
            resolve: nodes.map(|n| n()),
        }),
        sources,
        trees: vec![],
    }
}

fn placement_rule(id: &str, placement: Value) -> Element {
    rule(id, vec![guard("twrit", "placement"), ("placement", placement)])
}

/// A file found under `dir`, at `rel` below it, with the workspace root
/// being `dir` itself.
fn placed(dir: &str, rel: &str) -> Placed {
    let mut parts = vec![dir.to_string()];
    parts.extend(rel.split('/').map(|s| s.to_string()));
    Placed { parts, inside: Some(rel.to_string()), from_root: Some(rel.to_string()) }
}

fn tree(dir: &str, within: Option<&str>, files: &[&str]) -> Tree {
    Tree {
        writ: format!("{dir}/.writ.tmt"),
        within: within.map(|w| w.to_string()),
        shown: dir.to_string(),
        exists: true,
        files: Ok(files.iter().map(|f| placed(dir, f)).collect()),
    }
}

fn with_trees(trees: Vec<Tree>) -> Workspace {
    let mut ws = workspace(&|| vec![], &|| vec![], None, vec![]);
    ws.trees = trees;
    ws
}

fn allowing(patterns: &[&str]) -> Value {
    table(vec![("allow", list(patterns))])
}

fn run(dir: &str, placement: Value, ws: &Workspace) -> Result<String, String> {
    let w = writ(&format!("{dir}/.writ.tmt"), vec![placement_rule(dir, placement)]);
    twrit::check(dir.to_string(), vec![w], ws, &vec![]).map(|r| r.render())
}

#[test]
fn clean_placement_passes() {
    let ws = with_trees(vec![tree("placement-clean", None, &[".writ.tmt", "docs/readme.md"])]);
    assert_eq!(
        run("placement-clean", allowing(&[".writ.tmt", "docs/*.md"]), &ws).unwrap(),
        "1 writ, 1 rule, placement-clean: ok (2 files)\n"
    );
}

#[test]
fn stray_file_is_reported() {
    let ws = with_trees(vec![tree(
        "placement-stray",
        None,
        &[".writ.tmt", "docs/readme.md", "docs/unexpected.tmt"],
    )]);
    assert_eq!(
        run("placement-stray", allowing(&[".writ.tmt", "docs/*.md"]), &ws).unwrap(),
        "placement-stray: docs/unexpected.tmt: unlisted file matches no allowed pattern\n\
         1 writ, 1 rule, placement-stray: 1 violation (3 files)\n"
    );
}

#[test]
fn files_inside_git_are_never_judged() {
    let ws = with_trees(vec![tree("p", None, &[".writ.tmt", ".git/config", ".git/objects/ab"])]);
    assert_eq!(
        run("p", allowing(&[".writ.tmt"]), &ws).unwrap(),
        "1 writ, 1 rule, p: ok (1 file)\n"
    );
}

#[test]
fn a_missing_directory_is_a_finding() {
    let mut t = tree("p", Some("gone"), &[]);
    t.shown = "p/gone".to_string();
    t.exists = false;
    let ws = with_trees(vec![t]);
    let placement = table(vec![("within", text("gone")), ("allow", list(&["*"]))]);
    assert_eq!(
        run("p", placement, &ws).unwrap(),
        "p: directory `p/gone` does not exist\n1 writ, 1 rule, p: 1 violation (0 files)\n"
    );
}

#[test]
fn within_dot_is_the_writs_own_directory() {
    let ws = with_trees(vec![tree("p", None, &["a.rs"])]);
    let placement = table(vec![("within", text(".")), ("allow", list(&["*.rs"]))]);
    assert_eq!(run("p", placement, &ws).unwrap(), "1 writ, 1 rule, p: ok (1 file)\n");
}

#[test]
fn an_invalid_glob_is_refused() {
    let ws = with_trees(vec![tree("p", None, &["a.rs"])]);
    assert_eq!(
        run("p", allowing(&["*.rs", "[abc"]), &ws).unwrap_err(),
        "invalid glob pattern `[abc` in `placement`: error parsing glob '[abc': \
         unclosed character class; missing ']'"
    );
}

#[test]
fn a_placement_naming_no_pattern_is_refused() {
    let ws = with_trees(vec![tree("p", None, &[])]);
    assert_eq!(
        run("p", table(vec![("allow", list(&[]))]), &ws).unwrap_err(),
        "`placement` names no allowed patterns"
    );
}

#[test]
fn an_unknown_placement_key_is_refused() {
    let ws = with_trees(vec![]);
    let placement = table(vec![("allow", list(&["*"])), ("colour", text("red"))]);
    assert_eq!(run("p", placement, &ws).unwrap_err(), "`placement` does not know the key `colour`");
}

#[test]
fn a_within_that_is_not_a_string_is_refused() {
    let ws = with_trees(vec![]);
    let placement = table(vec![("within", list(&["a"])), ("allow", list(&["*"]))]);
    assert_eq!(run("p", placement, &ws).unwrap_err(), "`placement`'s `within` is not a string");
}

#[test]
fn a_placement_without_its_parameter_is_refused() {
    let w = writ("p/.writ.tmt", vec![rule("shape", vec![guard("twrit", "placement")])]);
    let err = twrit::check("p".to_string(), vec![w], &with_trees(vec![]), &vec![]).err().unwrap();
    assert_eq!(
        err,
        "p/.writ.tmt: `@rule(shape)` guards `placement` but declares no `placement:` parameter"
    );
}

#[test]
fn a_walk_that_failed_is_an_error() {
    let mut t = tree("p", None, &[]);
    t.files = Err("failed to walk directory: permission denied".to_string());
    let ws = with_trees(vec![t]);
    assert_eq!(
        run("p", allowing(&["*"]), &ws).unwrap_err(),
        "failed to walk directory: permission denied"
    );
}

#[test]
fn the_declaration_says_where_to_look() {
    let w = writ(
        "p/.writ.tmt",
        vec![placement_rule("x", table(vec![("within", text("docs")), ("allow", list(&["*.md"]))]))],
    );
    let rules = twrit::writ::declared_rules(vec![w]).unwrap();
    let p = twrit::placement::Placement::read(&rules[0]).unwrap();
    assert_eq!(p.within.as_deref(), Some("docs"));
    assert_eq!(p.allow, vec!["*.md".to_string()]);
}
