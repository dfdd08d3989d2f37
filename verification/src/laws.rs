//! What holds of the library as a whole, across its functions.

use vstd::prelude::*;

use crate::door::{
    allowed_outsider, door_covers, door_hits, door_outcome, door_params, door_scan, finding,
    names_scan, stale_allowed, DoorSpec,
};
use crate::layering::{
    assignment, classification_finding, dep_finding, dir_or_empty, layer_findings, layer_matches,
    floor_finding, layers_outcome, layers_params, member_finding, misclassified, upward_finding,
    LayersSpec,
};
use crate::purity::{
    closure_reached, forbid_scan, forbidden_message, lemma_member_in, member_in, node_index,
    pure_one, pure_outcome, pure_params, pure_scan, unreached_message, PureSpec,
};
use crate::text::{
    contains_text, decimal, join, slashed, lemma_decimal_one_line, lemma_join_one_line, lemma_newlines_add,
    lemma_one_line_add, lemma_one_line_none, lemma_plural_one_line, lemma_text_lt_irreflexive,
    newlines, one_line, plural_text, strictly_sorted, text_lt, texts,
};
use crate::workspace::{
    file_hits, grep_result, is_member_dir, member_dir, sources_for, Member, Metadata, Placed,
    SourceFile, Sources, Tree, Workspace,
};
use crate::placement::{
    counted, missing_dir_message, placed_path, placement_outcome, placement_params, placement_scan,
    stray_message, tree_for, whitelisted, within_view,
};
use crate::writ::{all_rules, Guard, Rule, Writ};
use crate::{
    census, check_answer, dead_guard_message, rule_lines, rule_summary, violation_lines, dead_lines, dead_target, dead_total, lines, held_by, is_kind, list_answer, lists,
    no_writ_text, refusal, report_text, results_are, run_all, unguarded, unknown_kind, violation_total,
    Listed, Listing, Report, ReportView, RuleResult,
};

verus! {

// ---------------------------------------------------------------------
// Reports

/// A run that found no writ says so, naming the root, and nothing else.
pub proof fn law_no_writ_says_so(report: Report, root: Seq<char>)
    requires
        report.is_empty_at(root),
    ensures
        report_text(report@) == no_writ_text(root),
{
}

/// A run is clean, reporting no finding at all, exactly when no rule
/// found anything and no guard points at nothing.
pub proof fn law_clean_means_nothing_found(report: Report)
    ensures
        violation_total(report@.rules) + report@.dead_guards.len() == 0 <==> (report@.dead_guards.len()
            == 0 && forall|k: int|
            0 <= k < report@.rules.len() ==> (#[trigger] report@.rules[k]).outcome.violations@.len()
                == 0),
{
    lemma_total_zero(report@.rules);
}

proof fn lemma_total_zero(rules: Seq<RuleResult>)
    ensures
        violation_total(rules) == 0 <==> forall|k: int|
            0 <= k < rules.len() ==> (#[trigger] rules[k]).outcome.violations@.len() == 0,
    decreases rules.len(),
{
    if rules.len() > 0 {
        lemma_total_zero(rules.drop_last());
        assert forall|k: int| 0 <= k < rules.len() - 1 implies rules.drop_last()[k] == rules[k] by {}
        if violation_total(rules) == 0 {
            assert forall|k: int| 0 <= k < rules.len() implies (#[trigger] rules[k]).outcome.violations@.len() == 0 by {
                if k < rules.len() - 1 {
                    assert(rules.drop_last()[k] == rules[k]);
                }
            }
        }
        if forall|k: int| 0 <= k < rules.len() ==> (#[trigger] rules[k]).outcome.violations@.len() == 0 {
            assert(rules.last().outcome.violations@.len() == 0);
            assert forall|k: int| 0 <= k < rules.drop_last().len() implies (#[trigger] rules.drop_last()[k]).outcome.violations@.len() == 0 by {
                assert(rules.drop_last()[k] == rules[k]);
            }
        }
    }
}

/// Every list of findings a rule reports is sorted and holds each finding
/// once.
pub proof fn law_findings_never_repeat(
    root: Seq<char>,
    writs: Seq<Writ>,
    ws: Workspace,
    missing: Seq<Seq<char>>,
    report: Report,
    k: int,
    a: int,
    b: int,
)
    requires
        writs.len() > 0,
        check_answer(Ok(report), root, writs, ws, missing),
        0 <= k < report@.rules.len(),
        0 <= a < b < report@.rules[k].outcome.violations@.len(),
    ensures
        text_lt(
            report@.rules[k].outcome.violations@[a]@,
            report@.rules[k].outcome.violations@[b]@,
        ),
        report@.rules[k].outcome.violations@[a]@ != report@.rules[k].outcome.violations@[b]@,
{
    let rules = all_rules(writs)->Ok_0;
    let expected = run_all(rules, ws)->Ok_0;
    assert(results_are(report@.rules, expected));
    let r = report@.rules[k];
    assert(strictly_sorted(texts(r.outcome.violations@)));
    let t = texts(r.outcome.violations@);
    assert(text_lt(t[a], t[b]));
    lemma_text_lt_irreflexive(t[a]);
}

// ---------------------------------------------------------------------
// Dead guards

proof fn lemma_dead_line_present(rules: Seq<Rule>, missing: Seq<Seq<char>>, k: int)
    requires
        0 <= k < rules.len(),
        dead_target(rules[k], missing) is Some,
    ensures
        dead_lines(rules, missing).contains(
            dead_guard_message(rules[k].id@, dead_target(rules[k], missing)->Some_0),
        ),
    decreases rules.len(),
{
    let rest = dead_lines(rules.drop_last(), missing);
    if k == rules.len() - 1 {
        let m = dead_guard_message(rules[k].id@, dead_target(rules[k], missing)->Some_0);
        assert(dead_lines(rules, missing) == rest.push(m));
        assert(dead_lines(rules, missing)[rest.len() as int] == m);
    } else {
        assert(rules.drop_last()[k] == rules[k]);
        lemma_dead_line_present(rules.drop_last(), missing, k);
        let m = dead_guard_message(rules[k].id@, dead_target(rules[k], missing)->Some_0);
        let i = choose|i: int| 0 <= i < rest.len() && rest[i] == m;
        match dead_target(rules.last(), missing) {
            Some(t) => {
                assert(dead_lines(rules, missing)[i] == m);
            },
            None => {},
        }
    }
}

proof fn lemma_dead_line_source(rules: Seq<Rule>, missing: Seq<Seq<char>>, j: int)
    requires
        0 <= j < dead_lines(rules, missing).len(),
    ensures
        exists|k: int|
            0 <= k < rules.len() && (#[trigger] rules[k]).guard is Test && dead_target(rules[k], missing)
                is Some && dead_lines(rules, missing)[j] == dead_guard_message(
                rules[k].id@,
                dead_target(rules[k], missing)->Some_0,
            ),
    decreases rules.len(),
{
    let rest = dead_lines(rules.drop_last(), missing);
    let last = rules.len() - 1;
    if j < rest.len() {
        lemma_dead_line_source(rules.drop_last(), missing, j);
        let k = choose|k: int|
            0 <= k < rules.drop_last().len() && (#[trigger] rules.drop_last()[k]).guard is Test
                && dead_target(rules.drop_last()[k], missing) is Some && rest[j] == dead_guard_message(
                rules.drop_last()[k].id@,
                dead_target(rules.drop_last()[k], missing)->Some_0,
            );
        assert(rules.drop_last()[k] == rules[k]);
        match dead_target(rules.last(), missing) {
            Some(t) => {
                assert(dead_lines(rules, missing)[j] == rest[j]);
            },
            None => {},
        }
        assert(rules[k].guard is Test);
    } else {
        assert(dead_target(rules[last], missing) is Some);
        assert(rules[last].guard is Test);
    }
}

proof fn lemma_lines_hold(items: Seq<Seq<char>>, k: int)
    requires
        0 <= k < items.len(),
    ensures
        exists|i: int|
            0 <= i && i + items[k].len() + 1 <= lines(items).len() && #[trigger] lines(items).subrange(
                i,
                i + items[k].len() + 1,
            ) == items[k] + "\n"@,
    decreases items.len(),
{
    reveal_strlit("\n");
    let before = lines(items.drop_last());
    assert(lines(items) == before + items.last() + "\n"@);
    if k == items.len() - 1 {
        let i = before.len() as int;
        assert(lines(items).subrange(i, i + items[k].len() + 1) =~= items[k] + "\n"@);
    } else {
        assert(items.drop_last()[k] == items[k]);
        lemma_lines_hold(items.drop_last(), k);
        let i = choose|i: int|
            0 <= i && i + items[k].len() + 1 <= before.len() && #[trigger] before.subrange(
                i,
                i + items[k].len() + 1,
            ) == items[k] + "\n"@;
        assert(lines(items).subrange(i, i + items[k].len() + 1) =~= before.subrange(
            i,
            i + items[k].len() + 1,
        ));
    }
}

/// A `test:` guard naming a path that does not exist is reported: its
/// line `<id>: guard names <path>, which does not exist` is among the
/// report's dead guards and in the text it prints, and it fails the run.
/// Every dead-guard line comes from such a guard; a `runs:`, `twrit:` or
/// `none:` guard never gives one.
pub proof fn law_a_dead_guard_is_reported(
    root: Seq<char>,
    writs: Seq<Writ>,
    ws: Workspace,
    missing: Seq<Seq<char>>,
    report: Report,
    k: int,
)
    requires
        writs.len() > 0,
        check_answer(Ok(report), root, writs, ws, missing),
        0 <= k < all_rules(writs)->Ok_0.len(),
        dead_target(all_rules(writs)->Ok_0[k], missing) is Some,
    ensures
        ({
            let rule = all_rules(writs)->Ok_0[k];
            let line = dead_guard_message(rule.id@, dead_target(rule, missing)->Some_0);
            &&& report@.dead_guards.contains(line)
            &&& exists|i: int|
                0 <= i && i + line.len() + 1 <= report_text(report@).len()
                    && #[trigger] report_text(report@).subrange(i, i + line.len() + 1) == line
                    + "\n"@
        }),
        violation_total(report@.rules) + report@.dead_guards.len() >= 1,
        forall|j: int|
            #![trigger report@.dead_guards[j]]
            0 <= j < report@.dead_guards.len() ==> exists|m: int|
                0 <= m < all_rules(writs)->Ok_0.len() && (#[trigger] all_rules(writs)->Ok_0[m]).guard
                    is Test && dead_target(all_rules(writs)->Ok_0[m], missing) is Some
                    && report@.dead_guards[j] == dead_guard_message(
                    all_rules(writs)->Ok_0[m].id@,
                    dead_target(all_rules(writs)->Ok_0[m], missing)->Some_0,
                ),
{
    let rules = all_rules(writs)->Ok_0;
    let rule = rules[k];
    let line = dead_guard_message(rule.id@, dead_target(rule, missing)->Some_0);
    let dead = report@.dead_guards;
    assert(dead == dead_lines(rules, missing));
    lemma_dead_line_present(rules, missing, k);
    let d = choose|d: int| 0 <= d < dead.len() && dead[d] == line;
    lemma_lines_hold(dead, d);
    let i = choose|i: int|
        0 <= i && i + line.len() + 1 <= lines(dead).len() && #[trigger] lines(dead).subrange(
            i,
            i + line.len() + 1,
        ) == line + "\n"@;
    let text = report_text(report@);
    assert(report@.writ_count > 0);
    assert(lines(dead).len() <= text.len());
    assert(text.subrange(0, lines(dead).len() as int) =~= lines(dead));
    assert(text.subrange(i, i + line.len() + 1) =~= lines(dead).subrange(i, i + line.len() + 1));
    assert forall|j: int| #![trigger dead[j]] 0 <= j < dead.len() implies exists|m: int|
        0 <= m < rules.len() && (#[trigger] rules[m]).guard is Test && dead_target(rules[m], missing)
            is Some && dead[j] == dead_guard_message(
            rules[m].id@,
            dead_target(rules[m], missing)->Some_0,
        ) by {
        lemma_dead_line_source(rules, missing, j);
    }
}

// ---------------------------------------------------------------------
// Lines of the report

proof fn lemma_literals_one_line()
    ensures
        one_line(", "@),
        one_line(": "@),
        one_line(" ("@),
        one_line(")"@),
        one_line(": ok ("@),
        one_line(" unguarded)"@),
        one_line("writ"@),
        one_line("rule"@),
        one_line("dead guard"@),
        one_line("violation"@),
        newlines("\n"@) == 1,
{
    reveal_strlit(", ");
    reveal_strlit(": ");
    reveal_strlit(" (");
    reveal_strlit(")");
    reveal_strlit(": ok (");
    reveal_strlit(" unguarded)");
    reveal_strlit("writ");
    reveal_strlit("rule");
    reveal_strlit("dead guard");
    reveal_strlit("violation");
    reveal_strlit("\n");
    assert("\n"@.drop_last() =~= Seq::<char>::empty());
    assert(newlines(Seq::<char>::empty()) == 0);
    assert("\n"@.last() == '\n');
    assert(newlines("\n"@) == newlines("\n"@.drop_last()) + 1);
}

proof fn lemma_lines_count(items: Seq<Seq<char>>)
    requires
        forall|k: int| 0 <= k < items.len() ==> one_line(#[trigger] items[k]),
    ensures
        newlines(lines(items)) == items.len(),
    decreases items.len(),
{
    if items.len() > 0 {
        lemma_literals_one_line();
        assert forall|k: int| 0 <= k < items.drop_last().len() implies one_line(
            #[trigger] items.drop_last()[k],
        ) by {
            assert(items.drop_last()[k] == items[k]);
        }
        lemma_lines_count(items.drop_last());
        assert(one_line(items.last())) by {
            assert(items.last() == items[items.len() - 1]);
        }
        lemma_one_line_none(items.last());
        lemma_newlines_add(lines(items.drop_last()), items.last());
        lemma_newlines_add(lines(items.drop_last()) + items.last(), "\n"@);
    }
}

proof fn lemma_violation_lines_count(id: Seq<char>, vs: Seq<Seq<char>>)
    requires
        one_line(id),
        forall|k: int| 0 <= k < vs.len() ==> one_line(#[trigger] vs[k]),
    ensures
        newlines(violation_lines(id, vs)) == vs.len(),
    decreases vs.len(),
{
    if vs.len() > 0 {
        lemma_literals_one_line();
        assert forall|k: int| 0 <= k < vs.drop_last().len() implies one_line(
            #[trigger] vs.drop_last()[k],
        ) by {
            assert(vs.drop_last()[k] == vs[k]);
        }
        lemma_violation_lines_count(id, vs.drop_last());
        assert(one_line(vs.last())) by {
            assert(vs.last() == vs[vs.len() - 1]);
        }
        let head = violation_lines(id, vs.drop_last());
        lemma_one_line_add(id, ": "@);
        lemma_one_line_add(id + ": "@, vs.last());
        lemma_one_line_none(id + ": "@ + vs.last());
        lemma_newlines_add(head, id + ": "@ + vs.last());
        assert(head + id + ": "@ + vs.last() =~= head + (id + ": "@ + vs.last()));
        lemma_newlines_add(head + id + ": "@ + vs.last(), "\n"@);
    }
}

/// Whether every piece of text a report prints is a single line.
pub open spec fn single_lines(r: ReportView) -> bool {
    &&& forall|k: int| 0 <= k < r.dead_guards.len() ==> one_line(#[trigger] r.dead_guards[k])
    &&& forall|k: int|
        0 <= k < r.rules.len() ==> {
            let x = #[trigger] r.rules[k];
            &&& one_line(x.id@)
            &&& one_line(x.outcome.scope@)
            &&& forall|j: int|
                0 <= j < x.outcome.violations@.len() ==> one_line(
                    (#[trigger] x.outcome.violations@[j])@,
                )
        }
}

proof fn lemma_rule_lines_count(rules: Seq<RuleResult>)
    requires
        forall|k: int|
            0 <= k < rules.len() ==> {
                let x = #[trigger] rules[k];
                &&& one_line(x.id@)
                &&& forall|j: int|
                    0 <= j < x.outcome.violations@.len() ==> one_line(
                        (#[trigger] x.outcome.violations@[j])@,
                    )
            },
    ensures
        newlines(rule_lines(rules)) == violation_total(rules),
    decreases rules.len(),
{
    if rules.len() > 0 {
        let x = rules.last();
        assert(x == rules[rules.len() - 1]);
        assert forall|k: int| 0 <= k < rules.drop_last().len() implies {
            let y = #[trigger] rules.drop_last()[k];
            &&& one_line(y.id@)
            &&& forall|j: int|
                0 <= j < y.outcome.violations@.len() ==> one_line(
                    (#[trigger] y.outcome.violations@[j])@,
                )
        } by {
            assert(rules.drop_last()[k] == rules[k]);
        }
        lemma_rule_lines_count(rules.drop_last());
        let vs = texts(x.outcome.violations@);
        assert forall|j: int| 0 <= j < vs.len() implies one_line(#[trigger] vs[j]) by {
            assert(vs[j] == x.outcome.violations@[j]@);
        }
        lemma_violation_lines_count(x.id@, vs);
        lemma_newlines_add(rule_lines(rules.drop_last()), violation_lines(x.id@, vs));
    }
}

proof fn lemma_summary_one_line(r: ReportView)
    requires
        single_lines(r),
    ensures
        one_line(
            plural_text(r.writ_count, "writ"@) + ", "@ + census(
                r.rule_count,
                r.unguarded_count,
                r.dead_guards.len(),
            ) + ", "@ + join(r.rules.map_values(|x: RuleResult| rule_summary(x)), ", "@),
        ),
{
    lemma_literals_one_line();
    lemma_plural_one_line(r.writ_count, "writ"@);
    lemma_plural_one_line(r.rule_count, "rule"@);
    lemma_plural_one_line(r.dead_guards.len(), "dead guard"@);
    lemma_decimal_one_line(r.unguarded_count);
    let u = if r.unguarded_count > 0 {
        " ("@ + decimal(r.unguarded_count) + " unguarded)"@
    } else {
        Seq::empty()
    };
    let d = if r.dead_guards.len() > 0 {
        ", "@ + plural_text(r.dead_guards.len(), "dead guard"@)
    } else {
        Seq::empty()
    };
    assert(one_line(Seq::<char>::empty()));
    lemma_one_line_add(" ("@, decimal(r.unguarded_count));
    lemma_one_line_add(" ("@ + decimal(r.unguarded_count), " unguarded)"@);
    lemma_one_line_add(", "@, plural_text(r.dead_guards.len(), "dead guard"@));
    assert(one_line(u));
    assert(one_line(d));
    lemma_one_line_add(plural_text(r.rule_count, "rule"@), u);
    lemma_one_line_add(plural_text(r.rule_count, "rule"@) + u, d);
    let c = census(r.rule_count, r.unguarded_count, r.dead_guards.len());
    assert(c == plural_text(r.rule_count, "rule"@) + u + d);
    let parts = r.rules.map_values(|x: RuleResult| rule_summary(x));
    assert forall|k: int| 0 <= k < parts.len() implies one_line(#[trigger] parts[k]) by {
        let x = r.rules[k];
        assert(parts[k] == rule_summary(x));
        lemma_plural_one_line(x.outcome.violations@.len(), "violation"@);
        lemma_one_line_add(x.id@, ": ok ("@);
        lemma_one_line_add(x.id@ + ": ok ("@, x.outcome.scope@);
        lemma_one_line_add(x.id@ + ": ok ("@ + x.outcome.scope@, ")"@);
        lemma_one_line_add(x.id@, ": "@);
        lemma_one_line_add(x.id@ + ": "@, plural_text(x.outcome.violations@.len(), "violation"@));
        lemma_one_line_add(
            x.id@ + ": "@ + plural_text(x.outcome.violations@.len(), "violation"@),
            " ("@,
        );
        lemma_one_line_add(
            x.id@ + ": "@ + plural_text(x.outcome.violations@.len(), "violation"@) + " ("@,
            x.outcome.scope@,
        );
        lemma_one_line_add(
            x.id@ + ": "@ + plural_text(x.outcome.violations@.len(), "violation"@) + " ("@
                + x.outcome.scope@,
            ")"@,
        );
    }
    lemma_join_one_line(parts, ", "@);
    let w = plural_text(r.writ_count, "writ"@);
    lemma_one_line_add(w, ", "@);
    lemma_one_line_add(w + ", "@, c);
    lemma_one_line_add(w + ", "@ + c, ", "@);
    lemma_one_line_add(w + ", "@ + c + ", "@, join(parts, ", "@));
}

/// Once a writ was found, the report is one line per finding -- each
/// violation and each dead guard -- and then the summary line, ending in
/// a line break: it holds one line break more than the findings counted,
/// provided no text it prints spans lines itself.
pub proof fn law_one_line_per_finding(report: Report)
    requires
        report@.writ_count > 0,
        single_lines(report@),
    ensures
        newlines(report_text(report@)) == violation_total(report@.rules)
            + report@.dead_guards.len() + 1,
        report_text(report@).last() == '\n',
{
    let r = report@;
    lemma_literals_one_line();
    reveal_strlit("\n");
    lemma_lines_count(r.dead_guards);
    lemma_rule_lines_count(r.rules);
    lemma_summary_one_line(r);
    let summary = plural_text(r.writ_count, "writ"@) + ", "@ + census(
        r.rule_count,
        r.unguarded_count,
        r.dead_guards.len(),
    ) + ", "@ + join(r.rules.map_values(|x: RuleResult| rule_summary(x)), ", "@);
    lemma_one_line_none(summary);
    let a = lines(r.dead_guards);
    let b = rule_lines(r.rules);
    assert(report_text(r) =~= a + b + summary + "\n"@);
    lemma_newlines_add(a, b);
    lemma_newlines_add(a + b, summary);
    lemma_newlines_add(a + b + summary, "\n"@);
}

// ---------------------------------------------------------------------
// The census

proof fn lemma_unguarded_first(rules: Seq<Rule>)
    requires
        rules.len() > 0,
    ensures
        unguarded(rules) == unguarded(rules.drop_first()) + match rules[0].guard {
            Guard::Nobody(_) => 1nat,
            _ => 0nat,
        },
    decreases rules.len(),
{
    if rules.len() > 1 {
        lemma_unguarded_first(rules.drop_last());
        assert(rules.drop_last().drop_first() =~= rules.drop_first().drop_last());
        assert(rules.drop_first().last() == rules.last());
        assert(rules.drop_last()[0] == rules[0]);
    } else {
        assert(rules.drop_last() =~= Seq::<Rule>::empty());
        assert(rules.drop_first() =~= Seq::<Rule>::empty());
    }
}

proof fn lemma_held_and_unguarded(rules: Seq<Rule>)
    ensures
        unguarded(rules) + held_here(rules).len() <= rules.len(),
    decreases rules.len(),
{
    if rules.len() > 0 {
        lemma_unguarded_first(rules);
        lemma_held_and_unguarded(rules.drop_first());
    }
}

/// The rules held by nobody and the rules this tool holds are apart among
/// the rules declared: together they are at most all of them. A run that
/// found no writ has no rule and no result.
pub proof fn law_the_census_adds_up(
    root: Seq<char>,
    writs: Seq<Writ>,
    ws: Workspace,
    missing: Seq<Seq<char>>,
    report: Report,
)
    requires
        writs.len() == 0 ==> report.is_empty_at(root),
        writs.len() > 0 ==> check_answer(Ok(report), root, writs, ws, missing),
    ensures
        report@.unguarded_count + report@.rules.len() <= report@.rule_count,
        report@.writ_count == 0 ==> report@.rule_count == 0 && report@.rules.len() == 0,
{
    if writs.len() > 0 {
        let rules = all_rules(writs)->Ok_0;
        lemma_run_all_ids(rules, ws);
        lemma_held_and_unguarded(rules);
        assert(results_are(report@.rules, run_all(rules, ws)->Ok_0));
    }
}

// ---------------------------------------------------------------------
// `check` and `list` over the same tree

proof fn lemma_unknown_none(rules: Seq<Rule>, k: int)
    requires
        unknown_kind(rules) is None,
        0 <= k < rules.len(),
    ensures
        match rules[k].guard {
            Guard::Twrit(kind) => is_kind(kind@),
            _ => true,
        },
    decreases rules.len(),
{
    if k > 0 {
        match rules[0].guard {
            Guard::Twrit(kind) => {},
            _ => {},
        }
        assert(rules.drop_first()[k - 1] == rules[k]);
        lemma_unknown_none(rules.drop_first(), k - 1);
    }
}

proof fn lemma_counts_agree(ls: Seq<Listed>, rules: Seq<Rule>, missing: Seq<Seq<char>>, n: int)
    requires
        ls.len() == rules.len(),
        0 <= n <= rules.len(),
        unknown_kind(rules) is None,
        forall|k: int| 0 <= k < rules.len() ==> lists(#[trigger] ls[k], rules[k], missing),
    ensures
        held_by(ls.subrange(0, n), "none"@) == unguarded(rules.subrange(0, n)),
        dead_total(ls.subrange(0, n)) == dead_lines(rules.subrange(0, n), missing).len(),
    decreases n,
{
    reveal_strlit("none");
    reveal_strlit("twrit");
    reveal_strlit("runs");
    reveal_strlit("test");
    if n > 0 {
        lemma_counts_agree(ls, rules, missing, n - 1);
        assert(ls.subrange(0, n).drop_last() =~= ls.subrange(0, n - 1));
        assert(rules.subrange(0, n).drop_last() =~= rules.subrange(0, n - 1));
        assert(lists(ls[n - 1], rules[n - 1], missing));
        lemma_unknown_none(rules, n - 1);
        match rules[n - 1].guard {
            Guard::Twrit(_) => {
                assert("twrit"@.len() != "none"@.len());
            },
            Guard::Runs(_) => {
                assert("runs"@[0] != "none"@[0]);
            },
            Guard::Test(_) => {
                assert("test"@[0] != "none"@[0]);
            },
            Guard::Nobody(_) => {},
        }
    } else {
        assert(ls.subrange(0, 0) =~= Seq::<Listed>::empty());
        assert(rules.subrange(0, 0) =~= Seq::<Rule>::empty());
    }
}

/// `check` and `list` over the same writs tell the same census: as many
/// rules, as many held by nobody, and as many guards pointing at nothing.
pub proof fn law_list_and_check_agree(
    root: Seq<char>,
    writs: Seq<Writ>,
    ws: Workspace,
    missing: Seq<Seq<char>>,
    report: Report,
    listing: Listing,
)
    requires
        writs.len() > 0,
        check_answer(Ok(report), root, writs, ws, missing),
        list_answer(Ok(listing), root, writs, missing),
    ensures
        listing@.rules.len() == report@.rule_count,
        held_by(listing@.rules, "none"@) == report@.unguarded_count,
        dead_total(listing@.rules) == report@.dead_guards.len(),
{
    let rules = all_rules(writs)->Ok_0;
    assert(refusal(rules) is None);
    assert(unknown_kind(rules) is None);
    lemma_counts_agree(listing@.rules, rules, missing, rules.len() as int);
    assert(listing@.rules.subrange(0, rules.len() as int) =~= listing@.rules);
    assert(rules.subrange(0, rules.len() as int) =~= rules);
}

/// The report holds one result for each rule this tool holds, in the
/// order the writs declare them, under each rule's id.
pub open spec fn held_here(rules: Seq<Rule>) -> Seq<Seq<char>>
    decreases rules.len(),
{
    if rules.len() == 0 {
        Seq::empty()
    } else {
        match rules[0].guard {
            Guard::Twrit(_) => seq![rules[0].id@] + held_here(rules.drop_first()),
            _ => held_here(rules.drop_first()),
        }
    }
}

proof fn lemma_run_all_ids(rules: Seq<Rule>, ws: Workspace)
    requires
        run_all(rules, ws) is Ok,
    ensures
        run_all(rules, ws)->Ok_0.len() == held_here(rules).len(),
        forall|k: int|
            0 <= k < held_here(rules).len() ==> (#[trigger] run_all(rules, ws)->Ok_0[k]).0
                == held_here(rules)[k],
    decreases rules.len(),
{
    if rules.len() > 0 {
        lemma_run_all_ids(rules.drop_first(), ws);
        match rules[0].guard {
            Guard::Twrit(_) => {
                let rest = run_all(rules.drop_first(), ws)->Ok_0;
                let all = run_all(rules, ws)->Ok_0;
                assert forall|k: int| 0 <= k < held_here(rules).len() implies (#[trigger] all[k]).0
                    == held_here(rules)[k] by {
                    if k > 0 {
                        assert(all[k] == rest[k - 1]);
                    }
                }
            },
            _ => {},
        }
    }
}

/// Every rule a writ gives to this tool runs, and is reported under its
/// own id, in declaration order; no other rule is.
pub proof fn law_every_held_rule_is_reported(
    root: Seq<char>,
    writs: Seq<Writ>,
    ws: Workspace,
    missing: Seq<Seq<char>>,
    report: Report,
)
    requires
        writs.len() > 0,
        check_answer(Ok(report), root, writs, ws, missing),
    ensures
        report@.rules.len() == held_here(all_rules(writs)->Ok_0).len(),
        forall|k: int|
            0 <= k < report@.rules.len() ==> (#[trigger] report@.rules[k]).id@ == held_here(
                all_rules(writs)->Ok_0,
            )[k],
{
    let rules = all_rules(writs)->Ok_0;
    lemma_run_all_ids(rules, ws);
    let expected = run_all(rules, ws)->Ok_0;
    assert forall|k: int| 0 <= k < report@.rules.len() implies (#[trigger] report@.rules[k]).id@
        == held_here(rules)[k] by {
        assert(report@.rules[k].id@ == expected[k].0);
    }
}

// ---------------------------------------------------------------------
// The guards

/// Layers are exhaustive: every member matching no layer, or more than
/// one, is reported as such.
pub proof fn law_every_unplaced_member_is_reported(l: LayersSpec, members: Seq<Member>, i: int)
    requires
        0 <= i < members.len(),
        layer_matches(l.patterns, dir_or_empty(members[i])).len() != 1,
    ensures
        layer_findings(l, members).contains(
            classification_finding(
                dir_or_empty(members[i]),
                layer_matches(l.patterns, dir_or_empty(members[i])),
            ),
        ),
{
    let x = classification_finding(
        dir_or_empty(members[i]),
        layer_matches(l.patterns, dir_or_empty(members[i])),
    );
    assert(misclassified(l, members[i], x));
    assert(member_finding(l, assignment(l.patterns, members), members[i], x));
}

/// Dev- and build-dependencies are exempt: where every member sits in
/// exactly one layer and declares no normal dependency, a layer
/// declaration finds nothing, whichever way those dependencies point.
pub proof fn law_dev_dependencies_are_exempt(l: LayersSpec, members: Seq<Member>)
    requires
        forall|i: int|
            0 <= i < members.len() ==> layer_matches(l.patterns, dir_or_empty(#[trigger] members[i])).len()
                == 1,
        forall|i: int, j: int|
            0 <= i < members.len() && 0 <= j < members[i].dependencies@.len()
                ==> !(#[trigger] members[i].dependencies@[j]).normal,
    ensures
        layer_findings(l, members) == Set::<Seq<char>>::empty(),
{
    let a = assignment(l.patterns, members);
    assert forall|x: Seq<char>| !layer_findings(l, members).contains(x) by {
        if layer_findings(l, members).contains(x) {
            let i = choose|i: int| 0 <= i < members.len() && #[trigger] member_finding(l, a, members[i], x);
            assert(layer_matches(l.patterns, dir_or_empty(members[i])).len() == 1);
            assert(!misclassified(l, members[i], x));
            let j = choose|j: int|
                0 <= j < members[i].dependencies@.len() && #[trigger] dep_finding(l, a, members[i], j, x);
            assert(!members[i].dependencies@[j].normal);
        }
    }
    assert(layer_findings(l, members) =~= Set::<Seq<char>>::empty());
}

/// A member matching exactly one layer is placed in a layer: its name is
/// assigned.
pub proof fn law_every_placed_member_has_a_layer(
    patterns: Seq<(u32, Seq<char>)>,
    members: Seq<Member>,
    i: int,
)
    requires
        0 <= i < members.len(),
        layer_matches(patterns, dir_or_empty(members[i])).len() == 1,
    ensures
        assignment(patterns, members).contains_key(members[i].name@),
    decreases members.len(),
{
    if i < members.len() - 1 {
        assert(members.drop_last()[i] == members[i]);
        law_every_placed_member_has_a_layer(patterns, members.drop_last(), i);
    }
}

/// An allowed directory that is no workspace member is itself a finding:
/// a door's allow list is held to what is true.
pub proof fn law_a_stale_door_is_reported(rule: Rule, ws: Workspace, k: int)
    requires
        door_outcome(rule, ws) is Ok,
        0 <= k < door_params(rule)->Ok_0.allowed.len(),
        !is_member_dir(ws.plain->Ok_0.members@, door_params(rule)->Ok_0.allowed[k]),
    ensures
        door_outcome(rule, ws)->Ok_0.1.contains(
            allowed_outsider(door_params(rule)->Ok_0.allowed[k]),
        ),
{
    let d = door_params(rule)->Ok_0;
    let members = ws.plain->Ok_0.members@;
    assert(stale_allowed(d, members).contains(allowed_outsider(d.allowed[k])));
}

/// An `allow-external` entry that nothing under the crate reaches is
/// reported: an allowlist says what is true, not what is permitted.
pub proof fn law_an_unused_allowance_is_reported(
    meta: Metadata,
    sources: Seq<Sources>,
    dir: Seq<char>,
    p: PureSpec,
    e: Seq<char>,
)
    requires
        pure_one(meta, sources, dir, p) is Ok,
        member_in(meta.members@, dir) is Some,
        p.allow_external.contains(e),
        ({
            let nodes = meta.resolve->Some_0;
            match node_index(nodes@, meta.members@[member_in(meta.members@, dir)->Some_0].id@) {
                Some(s) => !closure_reached(meta, nodes@, p.allow_external, s).contains(e),
                None => true,
            }
        }),
    ensures
        pure_one(meta, sources, dir, p)->Ok_0.contains(unreached_message(e, dir)),
{
}


// ---------------------------------------------------------------------
// What each guard is for

proof fn lemma_file_hit(files: Seq<SourceFile>, needle: Seq<char>, i: int)
    requires
        0 <= i < files.len(),
        contains_text(files[i].text@, needle),
    ensures
        file_hits(files, needle).contains(slashed(files[i].path@)),
    decreases files.len(),
{
    let rest = file_hits(files.drop_last(), needle);
    let target = slashed(files[i].path@);
    if i == files.len() - 1 {
        assert(files.last() == files[i]);
        assert(file_hits(files, needle) == rest.push(target));
        assert(file_hits(files, needle)[rest.len() as int] == target);
    } else {
        assert(files.drop_last()[i] == files[i]);
        lemma_file_hit(files.drop_last(), needle, i);
        let m = choose|m: int| 0 <= m < rest.len() && rest[m] == target;
        if contains_text(files.last().text@, needle) {
            assert(file_hits(files, needle)[m] == target);
        } else {
            assert(file_hits(files, needle) == rest);
        }
    }
}

proof fn lemma_forbid_found(dir: Seq<char>, forbid: Seq<Seq<char>>, sources: Seq<Sources>, k: int)
    requires
        forbid_scan(dir, forbid, sources) is Ok,
        0 <= k < forbid.len(),
    ensures
        grep_result(sources, dir, forbid[k]) is Ok,
        forall|f: Seq<char>|
            #[trigger] grep_result(sources, dir, forbid[k])->Ok_0.contains(f) ==> forbid_scan(
                dir,
                forbid,
                sources,
            )->Ok_0.contains(forbidden_message(dir, forbid[k], f)),
    decreases forbid.len(),
{
    if k > 0 {
        lemma_forbid_found(dir, forbid.drop_first(), sources, k - 1);
        assert(forbid.drop_first()[k - 1] == forbid[k]);
    } else {
        let h = grep_result(sources, dir, forbid[0])->Ok_0;
        assert forall|f: Seq<char>| #[trigger] h.contains(f) implies forbid_scan(
            dir,
            forbid,
            sources,
        )->Ok_0.contains(forbidden_message(dir, forbid[0], f)) by {
            let here = Set::new(
                |x: Seq<char>|
                    exists|g: Seq<char>| h.contains(g) && x == forbidden_message(dir, forbid[0], g),
            );
            assert(here.contains(forbidden_message(dir, forbid[0], f)));
        }
    }
}

proof fn lemma_pure_scan_has(
    meta: Metadata,
    sources: Seq<Sources>,
    p: PureSpec,
    crates: Seq<Seq<char>>,
    c: int,
)
    requires
        pure_scan(meta, sources, p, crates) is Ok,
        0 <= c < crates.len(),
    ensures
        pure_one(meta, sources, crates[c], p) is Ok,
        pure_one(meta, sources, crates[c], p)->Ok_0.subset_of(pure_scan(meta, sources, p, crates)->Ok_0),
    decreases crates.len(),
{
    if c > 0 {
        lemma_pure_scan_has(meta, sources, p, crates.drop_first(), c - 1);
        assert(crates.drop_first()[c - 1] == crates[c]);
    }
}

/// Every forbidden path is searched for, not only the first: for each
/// entry of `forbid`, every source file of a named crate whose text holds
/// it gives the finding `<dir> names a forbidden path: <path> in <file>`.
pub proof fn law_every_forbidden_path_is_searched(
    rule: Rule,
    ws: Workspace,
    c: int,
    k: int,
    s: Sources,
    i: int,
)
    requires
        pure_outcome(rule, ws) is Ok,
        0 <= c < pure_params(rule)->Ok_0.crates.len(),
        is_member_dir(ws.resolved->Ok_0.members@, pure_params(rule)->Ok_0.crates[c]),
        0 <= k < pure_params(rule)->Ok_0.forbid.len(),
        sources_for(ws.sources@, pure_params(rule)->Ok_0.crates[c]) == Some(s),
        s.files is Ok,
        0 <= i < s.files->Ok_0@.len(),
        contains_text(s.files->Ok_0@[i].text@, pure_params(rule)->Ok_0.forbid[k]),
    ensures
        pure_outcome(rule, ws)->Ok_0.1.contains(
            forbidden_message(
                pure_params(rule)->Ok_0.crates[c],
                pure_params(rule)->Ok_0.forbid[k],
                slashed(s.files->Ok_0@[i].path@),
            ),
        ),
{
    let meta = ws.resolved->Ok_0;
    let p = pure_params(rule)->Ok_0;
    let dir = p.crates[c];
    let path = p.forbid[k];
    lemma_pure_scan_has(meta, ws.sources@, p, p.crates, c);
    lemma_member_in(meta.members@, dir);
    assert(member_in(meta.members@, dir) is Some);
    let named = forbid_scan(dir, p.forbid, ws.sources@);
    assert(named is Ok);
    assert(named->Ok_0.subset_of(pure_one(meta, ws.sources@, dir, p)->Ok_0));
    lemma_forbid_found(dir, p.forbid, ws.sources@, k);
    lemma_file_hit(s.files->Ok_0@, path, i);
    assert(grep_result(ws.sources@, dir, path)->Ok_0 == file_hits(s.files->Ok_0@, path));
    assert(grep_result(ws.sources@, dir, path)->Ok_0.contains(slashed(s.files->Ok_0@[i].path@)));
}

proof fn lemma_dead_counted(rules: Seq<Listed>, k: int)
    requires
        0 <= k < rules.len(),
        rules[k].dead,
    ensures
        dead_total(rules) >= 1,
    decreases rules.len(),
{
    if k < rules.len() - 1 {
        assert(rules.drop_last()[k] == rules[k]);
        lemma_dead_counted(rules.drop_last(), k);
    }
}

/// A rule given to `twrit` under a kind this tool does not implement --
/// anything but `layers`, `pure`, `door` and `placement` -- is listed as
/// held by `twrit`, pointing at that kind, and dead: it is counted among
/// the dead guards.
pub proof fn law_an_unknown_kind_is_listed_dead(
    root: Seq<char>,
    writs: Seq<Writ>,
    missing: Seq<Seq<char>>,
    listing: Listing,
    k: int,
    kind: String,
)
    requires
        writs.len() > 0,
        list_answer(Ok(listing), root, writs, missing),
        0 <= k < all_rules(writs)->Ok_0.len(),
        all_rules(writs)->Ok_0[k].guard == Guard::Twrit(kind),
        kind@ != "layers"@,
        kind@ != "pure"@,
        kind@ != "door"@,
        kind@ != "placement"@,
    ensures
        listing@.rules[k].dead,
        listing@.rules[k].target@ == kind@,
        listing@.rules[k].holder@ == "twrit"@,
        dead_total(listing@.rules) >= 1,
{
    let rules = all_rules(writs)->Ok_0;
    assert(lists(listing@.rules[k], rules[k], missing));
    lemma_dead_counted(listing@.rules, k);
}


// The `layers` guard

/// Some member named `name` sits in exactly one layer: layer `at.0`, in
/// directory `at.1`.
pub open spec fn placed_at(
    l: LayersSpec,
    members: Seq<Member>,
    name: Seq<char>,
    at: (u32, Seq<char>),
) -> bool {
    exists|k: int|
        0 <= k < members.len() && members[k].name@ == name && #[trigger] layer_matches(
            l.patterns,
            dir_or_empty(members[k]),
        ).len() == 1 && layer_matches(l.patterns, dir_or_empty(members[k]))[0].0 == at.0
            && dir_or_empty(members[k]) == at.1
}

/// `x` reports a normal dependency of member `i` that breaks the order:
/// one on a member in a higher layer than its own, or any dependency on a
/// member from the lowest layer.
pub open spec fn layer_edge(l: LayersSpec, members: Seq<Member>, i: int, x: Seq<char>) -> bool {
    exists|j: int, own: (u32, Seq<char>), theirs: (u32, Seq<char>)|
        #![trigger placed_at(l, members, members[i].name@, own), placed_at(l, members, members[i].dependencies@[j].name@, theirs)]
        0 <= j < members[i].dependencies@.len() && members[i].dependencies@[j].normal && placed_at(
            l,
            members,
            members[i].name@,
            own,
        ) && placed_at(l, members, members[i].dependencies@[j].name@, theirs) && ((own.0
            < theirs.0 && x == upward_finding(
            members[i].name@,
            own,
            members[i].dependencies@[j].name@,
            theirs,
        )) || (own.0 == l.floor && x == floor_finding(
            l.floor,
            members[i].name@,
            members[i].dependencies@[j].name@,
        )))
}

proof fn lemma_assignment_placed(l: LayersSpec, members: Seq<Member>, n: Seq<char>)
    requires
        assignment(l.patterns, members).contains_key(n),
    ensures
        placed_at(l, members, n, assignment(l.patterns, members)[n]),
    decreases members.len(),
{
    let before = assignment(l.patterns, members.drop_last());
    let last = members.len() - 1;
    let m = members[last];
    assert(members.last() == m);
    let ms = layer_matches(l.patterns, dir_or_empty(m));
    if ms.len() == 1 && m.name@ == n {
        assert(layer_matches(l.patterns, dir_or_empty(members[last])).len() == 1);
    } else {
        assert(before.contains_key(n));
        assert(assignment(l.patterns, members)[n] == before[n]);
        lemma_assignment_placed(l, members.drop_last(), n);
        let k = choose|k: int|
            0 <= k < members.drop_last().len() && members.drop_last()[k].name@ == n
                && #[trigger] layer_matches(l.patterns, dir_or_empty(members.drop_last()[k])).len()
                == 1 && layer_matches(l.patterns, dir_or_empty(members.drop_last()[k]))[0].0
                == before[n].0 && dir_or_empty(members.drop_last()[k]) == before[n].1;
        assert(members.drop_last()[k] == members[k]);
        assert(layer_matches(l.patterns, dir_or_empty(members[k])).len() == 1);
    }
}

/// A `layers` rule reports nothing but a member placed in no layer or in
/// several, and a normal dependency that breaks the order: a member may
/// depend on its own layer or any lower one, and only a dependency on a
/// higher layer is called upward; the lowest layer may depend on no
/// member.
pub proof fn law_only_misplacements_and_broken_edges_are_reported(
    rule: Rule,
    ws: Workspace,
    x: Seq<char>,
)
    requires
        layers_outcome(rule, ws) is Ok,
        layers_outcome(rule, ws)->Ok_0.1.contains(x),
    ensures
        ({
            let l = layers_params(rule)->Ok_0;
            let ms = ws.plain->Ok_0.members@;
            ||| exists|i: int| 0 <= i < ms.len() && #[trigger] misclassified(l, ms[i], x)
            ||| exists|i: int| 0 <= i < ms.len() && #[trigger] layer_edge(l, ms, i, x)
        }),
{
    let l = layers_params(rule)->Ok_0;
    let ms = ws.plain->Ok_0.members@;
    let a = assignment(l.patterns, ms);
    assert(layer_findings(l, ms).contains(x));
    let i = choose|i: int| 0 <= i < ms.len() && #[trigger] member_finding(l, a, ms[i], x);
    if !misclassified(l, ms[i], x) {
        let m = ms[i];
        let j = choose|j: int| 0 <= j < m.dependencies@.len() && #[trigger] dep_finding(l, a, m, j, x);
        let dep = m.dependencies@[j];
        lemma_assignment_placed(l, ms, m.name@);
        lemma_assignment_placed(l, ms, dep.name@);
        let own = a[m.name@];
        let theirs = a[dep.name@];
        assert(placed_at(l, ms, ms[i].name@, own));
        assert(placed_at(l, ms, ms[i].dependencies@[j].name@, theirs));
        assert(layer_edge(l, ms, i, x));
    }
}

// The `door` guard

/// `x` reports member `i` naming a capability: the door speaks about its
/// directory, the directory is not among those allowed, and a source file
/// of it names one of the door's names.
pub open spec fn door_violation(
    d: DoorSpec,
    members: Seq<Member>,
    sources: Seq<Sources>,
    i: int,
    x: Seq<char>,
) -> bool {
    match member_dir(members[i]) {
        None => false,
        Some(dir) => {
            &&& door_covers(d.within, dir)
            &&& !d.allowed.contains(dir)
            &&& exists|j: int, f: Seq<char>|
                0 <= j < d.names.len() && grep_result(sources, dir, d.names[j]) is Ok && grep_result(
                    sources,
                    dir,
                    d.names[j],
                )->Ok_0.contains(f) && x == #[trigger] finding(members[i].name@, d.names[j], f)
        },
    }
}

proof fn lemma_names_scan_source(
    owner: Seq<char>,
    names: Seq<Seq<char>>,
    sources: Seq<Sources>,
    dir: Seq<char>,
    x: Seq<char>,
)
    requires
        names_scan(owner, names, sources, dir) is Ok,
        names_scan(owner, names, sources, dir)->Ok_0.contains(x),
    ensures
        exists|j: int, f: Seq<char>|
            0 <= j < names.len() && grep_result(sources, dir, names[j]) is Ok && grep_result(
                sources,
                dir,
                names[j],
            )->Ok_0.contains(f) && x == #[trigger] finding(owner, names[j], f),
    decreases names.len(),
{
    let h = grep_result(sources, dir, names[0])->Ok_0;
    if door_hits(owner, names[0], h).contains(x) {
        let f = choose|f: Seq<char>| h.contains(f) && x == finding(owner, names[0], f);
        assert(x == finding(owner, names[0], f));
    } else {
        lemma_names_scan_source(owner, names.drop_first(), sources, dir, x);
        let (j, f) = choose|j: int, f: Seq<char>|
            0 <= j < names.drop_first().len() && grep_result(sources, dir, names.drop_first()[j])
                is Ok && grep_result(sources, dir, names.drop_first()[j])->Ok_0.contains(f) && x
                == #[trigger] finding(owner, names.drop_first()[j], f);
        assert(names.drop_first()[j] == names[j + 1]);
        assert(x == finding(owner, names[j + 1], f));
    }
}

proof fn lemma_door_scan_source(d: DoorSpec, members: Seq<Member>, sources: Seq<Sources>, x: Seq<char>)
    requires
        door_scan(d, members, sources) is Ok,
        door_scan(d, members, sources)->Ok_0.1.contains(x),
    ensures
        exists|i: int| 0 <= i < members.len() && #[trigger] door_violation(d, members, sources, i, x),
    decreases members.len(),
{
    let rest = door_scan(d, members.drop_first(), sources);
    let in_rest = rest is Ok && rest->Ok_0.1.contains(x);
    if in_rest {
        lemma_door_scan_source(d, members.drop_first(), sources, x);
        let i = choose|i: int|
            0 <= i < members.drop_first().len() && #[trigger] door_violation(
                d,
                members.drop_first(),
                sources,
                i,
                x,
            );
        assert(members.drop_first()[i] == members[i + 1]);
        assert(door_violation(d, members, sources, i + 1, x));
    } else {
        let dir = member_dir(members[0])->Some_0;
        assert(member_dir(members[0]) is Some);
        assert(door_covers(d.within, dir));
        assert(!d.allowed.contains(dir));
        lemma_names_scan_source(members[0].name@, d.names, sources, dir, x);
        assert(door_violation(d, members, sources, 0, x));
    }
}

/// A `door` rule reports nothing but a covered member, whose directory is
/// not allowed, naming one of the door's names in its sources, and an
/// allowed directory that is no member: a member whose directory is
/// allowed is never reported, whatever its package is called.
pub proof fn law_only_members_outside_the_door_are_reported(rule: Rule, ws: Workspace, x: Seq<char>)
    requires
        door_outcome(rule, ws) is Ok,
        door_outcome(rule, ws)->Ok_0.1.contains(x),
    ensures
        ({
            let d = door_params(rule)->Ok_0;
            let ms = ws.plain->Ok_0.members@;
            ||| exists|k: int|
                0 <= k < d.allowed.len() && !is_member_dir(ms, #[trigger] d.allowed[k]) && x
                    == allowed_outsider(d.allowed[k])
            ||| exists|i: int| 0 <= i < ms.len() && #[trigger] door_violation(d, ms, ws.sources@, i, x)
        }),
{
    let d = door_params(rule)->Ok_0;
    let ms = ws.plain->Ok_0.members@;
    if !stale_allowed(d, ms).contains(x) {
        lemma_door_scan_source(d, ms, ws.sources@, x);
    }
}

// The `placement` guard

/// How many of `files` the guard judges: those outside `.git` that lie
/// under its directory.
pub open spec fn judged(files: Seq<Placed>) -> nat
    decreases files.len(),
{
    if files.len() == 0 {
        0
    } else {
        judged(files.drop_last()) + if counted(files.last()) {
            1nat
        } else {
            0nat
        }
    }
}

/// `x` reports a judged file of `files` that no allowed glob admits.
pub open spec fn unlisted(root: Seq<char>, globs: Seq<Seq<char>>, files: Seq<Placed>, x: Seq<char>) -> bool {
    exists|k: int|
        0 <= k < files.len() && counted(files[k]) && !whitelisted(
            root,
            globs,
            (#[trigger] files[k]).inside->Some_0@,
        ) && x == stray_message(placed_path(files[k]))
}

proof fn lemma_scan_judged(root: Seq<char>, globs: Seq<Seq<char>>, files: Seq<Placed>)
    ensures
        placement_scan(root, globs, files).0 == judged(files),
        forall|x: Seq<char>|
            #[trigger] placement_scan(root, globs, files).1.contains(x) <==> unlisted(
                root,
                globs,
                files,
                x,
            ),
    decreases files.len(),
{
    if files.len() > 0 {
        let init = files.drop_last();
        lemma_scan_judged(root, globs, init);
        let f = files.last();
        assert(f == files[files.len() - 1]);
        assert forall|x: Seq<char>|
            #[trigger] placement_scan(root, globs, files).1.contains(x) <==> unlisted(
                root,
                globs,
                files,
                x,
            ) by {
            if unlisted(root, globs, init, x) {
                let k = choose|k: int|
                    0 <= k < init.len() && counted(init[k]) && !whitelisted(
                        root,
                        globs,
                        (#[trigger] init[k]).inside->Some_0@,
                    ) && x == stray_message(placed_path(init[k]));
                assert(init[k] == files[k]);
                assert(unlisted(root, globs, files, x));
            }
            if unlisted(root, globs, files, x) {
                let k = choose|k: int|
                    0 <= k < files.len() && counted(files[k]) && !whitelisted(
                        root,
                        globs,
                        (#[trigger] files[k]).inside->Some_0@,
                    ) && x == stray_message(placed_path(files[k]));
                if k < files.len() - 1 {
                    assert(init[k] == files[k]);
                    assert(unlisted(root, globs, init, x));
                }
            }
        }
    }
}

proof fn lemma_tree_for_first(trees: Seq<Tree>, writ: Seq<char>, within: Option<Seq<char>>, i: int)
    requires
        0 <= i < trees.len(),
        trees[i].writ@ == writ,
        within_view(trees[i].within) == within,
        forall|m: int|
            0 <= m < i ==> !((#[trigger] trees[m]).writ@ == writ && within_view(trees[m].within)
                == within),
    ensures
        tree_for(trees, writ, within) == Some(trees[i]),
    decreases trees.len(),
{
    if i > 0 {
        assert(!(trees[0].writ@ == writ && within_view(trees[0].within) == within));
        assert forall|m: int| 0 <= m < i - 1 implies !((#[trigger] trees.drop_first()[m]).writ@
            == writ && within_view(trees.drop_first()[m].within) == within) by {
            assert(trees.drop_first()[m] == trees[m + 1]);
        }
        assert(trees.drop_first()[i - 1] == trees[i]);
        lemma_tree_for_first(trees.drop_first(), writ, within, i - 1);
    }
}

/// A `placement` rule judges the directory read for its own writ and its
/// own `within`, the first one read for that pair, and no other: when it
/// does not exist that is the one finding; otherwise the rule counts the
/// files judged there and reports exactly those no allowed glob admits.
pub proof fn law_a_placement_rule_judges_its_own_directory(rule: Rule, ws: Workspace, i: int)
    requires
        placement_outcome(rule, ws) is Ok,
        0 <= i < ws.trees@.len(),
        ws.trees@[i].writ@ == rule.path@,
        within_view(ws.trees@[i].within) == placement_params(rule)->Ok_0.within,
        forall|m: int|
            0 <= m < i ==> !((#[trigger] ws.trees@[m]).writ@ == rule.path@ && within_view(
                ws.trees@[m].within,
            ) == placement_params(rule)->Ok_0.within),
    ensures
        ({
            let t = ws.trees@[i];
            let p = placement_params(rule)->Ok_0;
            let out = placement_outcome(rule, ws)->Ok_0;
            &&& !t.exists ==> out.0 == plural_text(0, "file"@) && out.1 == set![
                missing_dir_message(t.shown@),
            ]
            &&& t.exists ==> t.files is Ok && out.0 == plural_text(judged(t.files->Ok_0@), "file"@)
                && forall|x: Seq<char>|
                #[trigger] out.1.contains(x) <==> unlisted(t.shown@, p.allow, t.files->Ok_0@, x)
        }),
{
    let p = placement_params(rule)->Ok_0;
    lemma_tree_for_first(ws.trees@, rule.path@, p.within, i);
    let t = ws.trees@[i];
    if t.exists {
        lemma_scan_judged(t.shown@, p.allow, t.files->Ok_0@);
    }
}

} // verus!
