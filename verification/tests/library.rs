//! The library's own behaviour: the formulas it renders with, every error
//! it answers, and the laws it keeps, each on concrete values.

#![allow(dead_code)]

use twrit::layering::parse_number;
use twrit::workspace::{
    Dependency, Edge, Member, Metadata, Node, Package, SourceFile, Sources, Workspace,
};
use twrit::writ::{Element, Entry, Value, Writ};

fn text(s: &str) -> Value {
    Value::Text(s.to_string())
}

fn list(items: &[&str]) -> Value {
    Value::List(items.iter().map(|s| text(s)).collect(), format!("Seq({items:?})"))
}

fn table(entries: Vec<(&str, Value)>) -> Value {
    Value::Table(
        entries.into_iter().map(|(k, v)| (k.to_string(), v)).collect(),
        "Map([..])".to_string(),
    )
}

fn guard(holder: &str, what: &str) -> (&'static str, Value) {
    ("guard", table(vec![(Box::leak(holder.to_string().into_boxed_str()), text(what))]))
}

fn rule(id: &str, group: Vec<(&str, Value)>) -> Element {
    Element {
        args: Some(text(id)),
        group: Some(group.into_iter().map(|(k, v)| Entry::Pair(k.to_string(), v)).collect()),
    }
}

fn writ(path: &str, elements: Vec<Element>) -> Writ {
    Writ { path: path.to_string(), elements }
}

fn member(name: &str, dir: &str, deps: &[(&str, bool)]) -> Member {
    Member {
        name: name.to_string(),
        id: format!("{name} 0.1.0"),
        dir: Some(dir.to_string()),
        dependencies: deps
            .iter()
            .map(|(n, normal)| Dependency { name: n.to_string(), normal: *normal })
            .collect(),
    }
}

fn package(name: &str) -> Package {
    Package { id: format!("{name} 0.1.0"), name: name.to_string() }
}

fn node(name: &str, deps: &[&str]) -> Node {
    Node {
        id: format!("{name} 0.1.0"),
        deps: deps.iter().map(|d| Edge { pkg: format!("{d} 0.1.0"), normal: true }).collect(),
    }
}

fn source(dir: &str, files: &[(&str, &str)]) -> Sources {
    Sources {
        dir: dir.to_string(),
        files: Ok(files
            .iter()
            .map(|(p, t)| SourceFile { path: p.to_string(), text: t.to_string() })
            .collect()),
    }
}

/// A workspace whose members come from `members`, asked twice as cargo is.
fn workspace(
    members: &dyn Fn() -> Vec<Member>,
    packages: &dyn Fn() -> Vec<Package>,
    nodes: Option<&dyn Fn() -> Vec<Node>>,
    sources: Vec<Sources>,
) -> Workspace {
    Workspace {
        plain: Ok(Metadata { members: members(), packages: packages(), resolve: None }),
        resolved: Ok(Metadata {
            members: members(),
            packages: packages(),
            resolve: nodes.map(|n| n()),
        }),
        sources,
        trees: vec![],
    }
}

fn door_rule(door: Value) -> Element {
    rule("file-io", vec![guard("twrit", "door"), ("door", door)])
}

fn plain_ws(dirs: &[&str], sources: Vec<Sources>) -> Workspace {
    let ds: Vec<String> = dirs.iter().map(|d| d.to_string()).collect();
    let ms = move || ds.iter().map(|d| member(d, d, &[])).collect::<Vec<_>>();
    workspace(&ms, &|| vec![], None, sources)
}

#[test]
fn plural_counts_the_noun() {
    assert_eq!(twrit::plural(0, "member"), "0 members");
    assert_eq!(twrit::plural(1, "member"), "1 member");
    assert_eq!(twrit::plural(12, "dead guard"), "12 dead guards");
}

#[test]
fn decimal_text_has_no_leading_zeros() {
    assert_eq!(twrit::text::decimal_text(0), "0");
    assert_eq!(twrit::text::decimal_text(7), "7");
    assert_eq!(twrit::text::decimal_text(1905), "1905");
}

#[test]
fn padding_fills_to_the_width() {
    assert_eq!(twrit::text::padded("ab", 5), "ab   ");
    assert_eq!(twrit::text::padded("abcdef", 3), "abcdef");
}

#[test]
fn joining_puts_the_separator_between() {
    let parts = vec!["a".to_string(), "b".to_string(), "c".to_string()];
    assert_eq!(twrit::text::join_texts(&parts, ", "), "a, b, c");
    assert_eq!(twrit::text::join_texts(&vec![], ", "), "");
}

#[test]
fn sorting_goes_by_bytes_and_drops_repeats() {
    let v: Vec<String> = ["b", "a", "B", "a", "ab"].iter().map(|s| s.to_string()).collect();
    assert_eq!(twrit::text::sort_unique(v), vec!["B", "a", "ab", "b"]);
    let w: Vec<String> = ["z", "y", "z"].iter().map(|s| s.to_string()).collect();
    assert_eq!(twrit::text::sort_texts(w), vec!["y", "z", "z"]);
}

#[test]
fn a_pattern_with_a_star_matches_by_prefix() {
    assert!(twrit::text::matches_pattern("crates/*", "crates/core"));
    assert!(!twrit::text::matches_pattern("crates/*", "tools/x"));
    assert!(twrit::text::matches_pattern("core", "core"));
    assert!(!twrit::text::matches_pattern("core", "core2"));
}

#[test]
fn containment_is_by_bytes() {
    assert!(twrit::text::contains("use std::fs;", "std::fs"));
    assert!(!twrit::text::contains("use std::f", "std::fs"));
    assert!(twrit::text::contains("anything", ""));
}

#[test]
fn backslashes_become_slashes() {
    assert_eq!(twrit::text::with_slashes("a\\b\\c.rs"), "a/b/c.rs");
}

#[test]
fn a_layer_number_reads_as_a_u32() {
    assert_eq!(parse_number("0"), Ok(0));
    assert_eq!(parse_number("+7"), Ok(7));
    assert_eq!(parse_number("4294967295"), Ok(4294967295));
    assert_eq!(parse_number(""), Err("cannot parse integer from empty string".to_string()));
    assert_eq!(parse_number("-1"), Err("invalid digit found in string".to_string()));
    assert_eq!(parse_number("1a"), Err("invalid digit found in string".to_string()));
    assert_eq!(
        parse_number("4294967296"),
        Err("number too large to fit in target type".to_string())
    );
}

#[test]
fn only_four_kinds_are_implemented() {
    assert!(twrit::implements("layers"));
    assert!(twrit::implements("pure"));
    assert!(twrit::implements("door"));
    assert!(twrit::implements("placement"));
    assert!(!twrit::implements("shape"));
}

#[test]
fn an_unknown_kind_is_refused() {
    let w = writ("w/.writ.tmt", vec![rule("shape", vec![guard("twrit", "shape")])]);
    let ws = plain_ws(&[], vec![]);
    let err = twrit::check("w".to_string(), vec![w], &ws, &vec![]).err().unwrap();
    assert_eq!(
        err,
        "w/.writ.tmt: `@rule(shape)` names `twrit: shape`, which this tool does not \
         implement; it implements layers, pure, door, placement"
    );
}

#[test]
fn a_guard_with_two_holders_is_refused() {
    let w = writ(
        "w/.writ.tmt",
        vec![rule(
            "r",
            vec![("guard", table(vec![("runs", text("a")), ("test", text("b"))]))],
        )],
    );
    let err = twrit::writ::declared_rules(vec![w]).err().unwrap();
    assert_eq!(
        err,
        "w/.writ.tmt: `@rule(r)`'s `guard` holds 2 entries; it names exactly one holder"
    );
}

#[test]
fn a_guard_that_is_not_a_string_is_refused() {
    let w = writ("w/.writ.tmt", vec![rule("r", vec![("guard", table(vec![("runs", list(&["a"]))]))])]);
    let err = twrit::writ::declared_rules(vec![w]).err().unwrap();
    assert_eq!(err, "w/.writ.tmt: `@rule(r)`'s `guard: runs` is not a string: Seq([\"a\"])");
}

#[test]
fn rules_held_by_something_else_are_counted_not_run() {
    let w = writ(
        "w/.writ.tmt",
        vec![
            rule("a", vec![guard("runs", "just x")]),
            rule("b", vec![guard("none", "later")]),
            rule("c", vec![guard("test", "tests/c.rs")]),
        ],
    );
    let ws = plain_ws(&[], vec![]);
    let report = twrit::check("w".to_string(), vec![w], &ws, &vec![]).unwrap();
    assert_eq!(report.rule_count(), 3);
    assert_eq!(report.unguarded_count(), 1);
    assert_eq!(report.writ_count(), 1);
    assert_eq!(report.rules().len(), 0);
    assert_eq!(report.violation_count(), 0);
    assert_eq!(report.render(), "1 writ, 3 rules (1 unguarded), \n");
}

#[test]
fn a_dead_guard_fails_the_run() {
    let w = writ("w/.writ.tmt", vec![rule("gone", vec![guard("test", "tests/gone.rs")])]);
    let ws = plain_ws(&[], vec![]);
    let report =
        twrit::check("w".to_string(), vec![w], &ws, &vec!["tests/gone.rs".to_string()]).unwrap();
    assert_eq!(report.violation_count(), 1);
    assert_eq!(report.dead_guards(), &["gone: guard names tests/gone.rs, which does not exist".to_string()]);
    assert_eq!(
        report.render(),
        "gone: guard names tests/gone.rs, which does not exist\n1 writ, 1 rule, 1 dead guard, \n"
    );
}

#[test]
fn the_count_adds_every_finding() {
    let w = writ(
        "w/.writ.tmt",
        vec![
            door_rule(table(vec![("names", list(&["std::fs", "std::net"]))])),
            rule("gone", vec![guard("test", "tests/gone.rs")]),
        ],
    );
    let ws = plain_ws(
        &["a", "b"],
        vec![
            source("a", &[("a/src/lib.rs", "std::fs and std::net")]),
            source("b", &[("b/src/lib.rs", "std::fs")]),
        ],
    );
    let report =
        twrit::check("w".to_string(), vec![w], &ws, &vec!["tests/gone.rs".to_string()]).unwrap();
    assert_eq!(report.violation_count(), 4);
}

#[test]
fn a_door_without_its_parameter_is_refused() {
    let w = writ("w/.writ.tmt", vec![rule("file-io", vec![guard("twrit", "door")])]);
    let err = twrit::check("w".to_string(), vec![w], &plain_ws(&[], vec![]), &vec![]).err().unwrap();
    assert_eq!(err, "w/.writ.tmt: `@rule(file-io)` guards `door` but declares no `door:` parameter");
}

#[test]
fn a_door_naming_no_capability_is_refused() {
    let w = writ("w/.writ.tmt", vec![door_rule(table(vec![("allowed", list(&["a"]))]))]);
    let err = twrit::check("w".to_string(), vec![w], &plain_ws(&["a"], vec![]), &vec![]).err().unwrap();
    assert_eq!(err, "`door` names no capability");
}

#[test]
fn an_unknown_door_key_is_refused() {
    let w = writ(
        "w/.writ.tmt",
        vec![door_rule(table(vec![("names", list(&["x"])), ("colour", list(&["red"]))]))],
    );
    let err = twrit::check("w".to_string(), vec![w], &plain_ws(&[], vec![]), &vec![]).err().unwrap();
    assert_eq!(err, "`door` does not know the key `colour`");
}

#[test]
fn a_door_allowing_a_stranger_is_reported() {
    let w = writ(
        "w/.writ.tmt",
        vec![door_rule(table(vec![("names", list(&["std::fs"])), ("allowed", list(&["gone"]))]))],
    );
    let ws = plain_ws(&["a"], vec![source("a", &[("a/src/lib.rs", "fn main() {}")])]);
    let out = twrit::check("w".to_string(), vec![w], &ws, &vec![]).unwrap().render();
    assert_eq!(
        out,
        "file-io: `door` allows gone, which is not a workspace member\n\
         1 writ, 1 rule, file-io: 1 violation (1 member)\n"
    );
}

#[test]
fn a_door_speaks_only_within_its_scope() {
    let w = writ(
        "w/.writ.tmt",
        vec![door_rule(table(vec![("names", list(&["std::fs"])), ("within", list(&["core*"]))]))],
    );
    let ws = plain_ws(
        &["core-a", "tool"],
        vec![
            source("core-a", &[("core-a/src/lib.rs", "std::fs")]),
            source("tool", &[("tool/src/main.rs", "std::fs")]),
        ],
    );
    let out = twrit::check("w".to_string(), vec![w], &ws, &vec![]).unwrap().render();
    assert_eq!(
        out,
        "file-io: core-a is not a std::fs door, and names it in core-a/src/lib.rs\n\
         1 writ, 1 rule, file-io: 1 violation (1 member)\n"
    );
}

#[test]
fn a_door_that_cannot_read_sources_says_why() {
    let w = writ("w/.writ.tmt", vec![door_rule(table(vec![("names", list(&["std::fs"]))]))]);
    let ws = plain_ws(
        &["a"],
        vec![Sources { dir: "a".to_string(), files: Err("a/src: permission denied".to_string()) }],
    );
    let err = twrit::check("w".to_string(), vec![w], &ws, &vec![]).err().unwrap();
    assert_eq!(err, "a/src: permission denied");
}

#[test]
fn a_workspace_that_cannot_be_read_is_an_error() {
    let w = writ("w/.writ.tmt", vec![door_rule(table(vec![("names", list(&["std::fs"]))]))]);
    let ws = Workspace {
        plain: Err("failed to read the workspace with `cargo metadata`: no manifest".to_string()),
        resolved: Err("failed to read the workspace with `cargo metadata`: no manifest".to_string()),
        sources: vec![],
        trees: vec![],
    };
    let err = twrit::check("w".to_string(), vec![w], &ws, &vec![]).err().unwrap();
    assert_eq!(err, "failed to read the workspace with `cargo metadata`: no manifest");
}

#[test]
fn a_clean_run_reports_nothing_found() {
    let w = writ("w/.writ.tmt", vec![door_rule(table(vec![("names", list(&["std::fs"])), ("allowed", list(&["a"]))]))]);
    let ws = plain_ws(&["a"], vec![source("a", &[("a/src/lib.rs", "std::fs")])]);
    let report = twrit::check("w".to_string(), vec![w], &ws, &vec![]).unwrap();
    assert_eq!(report.violation_count(), 0);
    assert_eq!(report.render(), "1 writ, 1 rule, file-io: ok (1 member)\n");
}

#[test]
fn findings_are_sorted_and_never_repeat() {
    let w = writ("w/.writ.tmt", vec![door_rule(table(vec![("names", list(&["std::fs", "fs"]))]))]);
    let ws = plain_ws(
        &["b", "a"],
        vec![
            source("b", &[("b/src/lib.rs", "std::fs")]),
            source("a", &[("a/src/lib.rs", "std::fs"), ("a/src/x.rs", "std::fs")]),
        ],
    );
    let report = twrit::check("w".to_string(), vec![w], &ws, &vec![]).unwrap();
    let found = &report.rules()[0].outcome.violations;
    let mut sorted = found.clone();
    sorted.sort();
    sorted.dedup();
    assert_eq!(found, &sorted);
    assert_eq!(found.len(), 6);
}

#[test]
fn list_and_check_agree_on_the_census() {
    let make = || {
        writ(
            "w/.writ.tmt",
            vec![
                rule("a", vec![guard("runs", "x")]),
                rule("b", vec![guard("none", "later")]),
                rule("c", vec![guard("test", "gone.rs")]),
            ],
        )
    };
    let missing = vec!["gone.rs".to_string()];
    let report = twrit::check("w".to_string(), vec![make()], &plain_ws(&[], vec![]), &missing).unwrap();
    let listing = twrit::list("w".to_string(), vec![make()], &missing).unwrap();
    assert_eq!(report.rule_count(), listing.rules().len());
    assert_eq!(report.dead_guards().len(), listing.dead_count());
    assert_eq!(report.writ_count(), listing.writ_count());
}

#[test]
fn declared_rules_can_be_checked_directly() {
    let w = writ("w/.writ.tmt", vec![rule("a", vec![guard("runs", "x")])]);
    let declared = twrit::writ::declared_rules(vec![w]).unwrap();
    let report = twrit::check_declared("w".to_string(), 1, declared, &plain_ws(&[], vec![]), &vec![]).unwrap();
    assert_eq!(report.render(), "1 writ, 1 rule, \n");
}

fn pure_rule(pure: Value) -> Element {
    rule("parser-purity", vec![guard("twrit", "pure"), ("pure", pure)])
}

#[test]
fn an_allowance_nothing_reaches_is_reported() {
    let ws = workspace(
        &|| vec![member("core", "core", &[])],
        &|| vec![package("core")],
        Some(&|| vec![node("core", &[])]),
        vec![],
    );
    let w = writ(
        "w/.writ.tmt",
        vec![pure_rule(table(vec![("crates", list(&["core"])), ("allow-external", list(&["ghost"]))]))],
    );
    let out = twrit::check("w".to_string(), vec![w], &ws, &vec![]).unwrap().render();
    assert_eq!(
        out,
        "parser-purity: `allow-external` lists ghost, which nothing under core reaches\n\
         1 writ, 1 rule, parser-purity: 1 violation (1 crate)\n"
    );
}

#[test]
fn an_external_two_hops_out_is_reported() {
    let ws = workspace(
        &|| vec![member("core", "core", &[("outside", true)])],
        &|| vec![package("core"), package("outside"), package("deeper")],
        Some(&|| vec![node("core", &["outside"]), node("outside", &["deeper"]), node("deeper", &[])]),
        vec![],
    );
    let w = writ(
        "w/.writ.tmt",
        vec![pure_rule(table(vec![("crates", list(&["core"])), ("allow-external", list(&["outside"]))]))],
    );
    let out = twrit::check("w".to_string(), vec![w], &ws, &vec![]).unwrap().render();
    assert_eq!(
        out,
        "parser-purity: core reaches an external crate not in `allow-external`: outside -> deeper\n\
         1 writ, 1 rule, parser-purity: 1 violation (1 crate)\n"
    );
}

#[test]
fn an_edge_that_is_not_a_normal_dependency_is_not_followed() {
    let ws = workspace(
        &|| vec![member("core", "core", &[])],
        &|| vec![package("core"), package("tester")],
        Some(&|| {
            vec![
                Node {
                    id: "core 0.1.0".to_string(),
                    deps: vec![Edge { pkg: "tester 0.1.0".to_string(), normal: false }],
                },
                node("tester", &[]),
            ]
        }),
        vec![],
    );
    let w = writ("w/.writ.tmt", vec![pure_rule(table(vec![("crates", list(&["core"]))]))]);
    let out = twrit::check("w".to_string(), vec![w], &ws, &vec![]).unwrap().render();
    assert_eq!(out, "1 writ, 1 rule, parser-purity: ok (1 crate)\n");
}

#[test]
fn a_pure_rule_needs_the_resolved_graph() {
    let ws = workspace(&|| vec![member("core", "core", &[])], &|| vec![package("core")], None, vec![]);
    let w = writ("w/.writ.tmt", vec![pure_rule(table(vec![("crates", list(&["core"]))]))]);
    let err = twrit::check("w".to_string(), vec![w], &ws, &vec![]).err().unwrap();
    assert_eq!(err, "`cargo metadata` returned no resolved dependency graph");
}

#[test]
fn held_rules_are_reported_in_declaration_order() {
    let w = writ(
        "w/.writ.tmt",
        vec![
            rule("z-io", vec![guard("twrit", "door"), ("door", table(vec![("names", list(&["std::fs"]))]))]),
            rule("note", vec![guard("runs", "x")]),
            rule("a-net", vec![guard("twrit", "door"), ("door", table(vec![("names", list(&["std::net"]))]))]),
        ],
    );
    let report = twrit::check("w".to_string(), vec![w], &plain_ws(&["a"], vec![]), &vec![]).unwrap();
    let ids: Vec<&str> = report.rules().iter().map(|r| r.id.as_str()).collect();
    assert_eq!(ids, vec!["z-io", "a-net"]);
    assert_eq!(report.render(), "1 writ, 3 rules, z-io: ok (1 member), a-net: ok (1 member)\n");
}

#[test]
fn the_report_has_one_line_per_finding_and_a_summary() {
    let w = writ(
        "w/.writ.tmt",
        vec![
            door_rule(table(vec![("names", list(&["std::fs", "std::net"]))])),
            rule("gone", vec![guard("test", "tests/gone.rs")]),
            rule("later", vec![guard("none", "not yet")]),
        ],
    );
    let ws = plain_ws(
        &["a", "b"],
        vec![
            source("a", &[("a/src/lib.rs", "std::fs and std::net")]),
            source("b", &[("b/src/lib.rs", "std::fs")]),
        ],
    );
    let report =
        twrit::check("w".to_string(), vec![w], &ws, &vec!["tests/gone.rs".to_string()]).unwrap();
    let out = report.render();
    assert!(out.ends_with('\n'));
    assert_eq!(out.lines().count(), report.violation_count() + 1);
    assert_eq!(
        out.lines().next().unwrap(),
        "gone: guard names tests/gone.rs, which does not exist"
    );
    assert!(report.unguarded_count() + report.rules().len() <= report.rule_count());
    assert_eq!(report.unguarded_count(), 1);
    assert_eq!(report.rules().len(), 1);
    assert_eq!(report.rule_count(), 3);
}

#[test]
fn a_guard_that_is_not_a_test_is_never_dead() {
    let w = writ(
        "w/.writ.tmt",
        vec![
            rule("a", vec![guard("runs", "tests/gone.rs")]),
            rule("b", vec![guard("none", "tests/gone.rs")]),
        ],
    );
    let report = twrit::check(
        "w".to_string(),
        vec![w],
        &plain_ws(&[], vec![]),
        &vec!["tests/gone.rs".to_string()],
    )
    .unwrap();
    assert!(report.dead_guards().is_empty());
    assert_eq!(report.violation_count(), 0);
}
