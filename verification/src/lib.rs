//! `twrit` -- enforces the rules a repository writes down in its
//! `.writ.tmt` files.
//!
//! A rule nobody checks is a wish. The point of this tool is that a writ
//! entry naming a guard can be held to it, so the rule fails loudly rather
//! than drifting quietly out of true.
//!
//! This crate is the part of the tool that decides: it reads the writs'
//! entries, runs each rule kind over a description of the workspace, and
//! renders what it found. Walking the tree, reading files and asking
//! `cargo metadata` happen before it is called, and the answers are handed
//! in as plain values. Rendering in particular lives here: a test that
//! asserts on `Report::render` is asserting on the text the CLI prints.

pub mod door;
pub mod laws;
pub mod layering;
pub mod placement;
pub mod purity;
pub mod text;
pub mod workspace;
pub mod writ;

use vstd::prelude::*;

pub use text::plural;

use crate::door::door_outcome;
use crate::layering::layers_outcome;
use crate::placement::placement_outcome;
use crate::purity::pure_outcome;
use crate::workspace::Workspace;
use crate::writ::{all_rules, declared_rules, prepend, rules_of_kind, Guard, Rule, Writ};
use crate::text::{
    byte_len, decimal, decimal_text, join, join_texts, owned, pad, padded, plural_text, same_text,
    strictly_sorted, texts, holds,
};

verus! {

/// What one rule did on this run.
///
/// `scope` is carried because "checked and clean" and "checked nothing
/// and therefore clean" are two answers -- a `layers` over a workspace
/// with no members would otherwise read as a rule being kept.
pub struct Outcome {
    pub scope: String,
    pub violations: Vec<String>,
}

impl Outcome {
    pub fn checked(scope: String, violations: Vec<String>) -> (r: Self)
        ensures
            r.scope == scope,
            r.violations == violations,
    {
        Outcome { scope, violations }
    }

    pub fn violations(&self) -> (r: &[String])
        ensures
            r@ == self.violations@,
    {
        self.violations.as_slice()
    }
}

/// Whether a guard's answer is the one its specification gives: the same
/// error, or the same scope with the findings sorted, each once.
pub open spec fn outcome_is(
    r: Result<Outcome, String>,
    s: Result<(Seq<char>, Set<Seq<char>>), Seq<char>>,
) -> bool {
    match r {
        Ok(o) => match s {
            Ok(expected) => {
                &&& o.scope@ == expected.0
                &&& strictly_sorted(texts(o.violations@))
                &&& texts(o.violations@).to_set() == expected.1
            },
            Err(_) => false,
        },
        Err(e) => s == Err::<(Seq<char>, Set<Seq<char>>), Seq<char>>(e@),
    }
}

/// One rule's result, reported under the id its writ gave it.
///
/// The id and not the kind, because a kind can hold several rules: a
/// repository has one `layers`, but it may have a `door` for file I/O and
/// another for the way documents are read.
pub struct RuleResult {
    pub id: String,
    pub outcome: Outcome,
}

/// Everything one `check` run has to say.
pub struct Report {
    root: String,
    writ_count: usize,
    /// Every rule the writs declare, held or not.
    rule_count: usize,
    /// Rules whose guard is `none:`.
    unguarded_count: usize,
    /// Findings that belong to one rule rather than to a rule kind: a
    /// writ whose own account of itself is wrong.
    dead_guards: Vec<String>,
    rules: Vec<RuleResult>,
}

/// A report as the values it is made of.
pub struct ReportView {
    pub root: Seq<char>,
    pub writ_count: nat,
    pub rule_count: nat,
    pub unguarded_count: nat,
    pub dead_guards: Seq<Seq<char>>,
    pub rules: Seq<RuleResult>,
}

impl View for Report {
    type V = ReportView;

    closed spec fn view(&self) -> ReportView {
        ReportView {
            root: self.root@,
            writ_count: self.writ_count as nat,
            rule_count: self.rule_count as nat,
            unguarded_count: self.unguarded_count as nat,
            dead_guards: texts(self.dead_guards@),
            rules: self.rules@,
        }
    }
}

/// The number of violations across `rules`.
pub open spec fn violation_total(rules: Seq<RuleResult>) -> nat
    decreases rules.len(),
{
    if rules.len() == 0 {
        0
    } else {
        violation_total(rules.drop_last()) + rules.last().outcome.violations@.len()
    }
}

/// Each item on a line of its own.
pub open spec fn lines(items: Seq<Seq<char>>) -> Seq<char>
    decreases items.len(),
{
    if items.len() == 0 {
        Seq::empty()
    } else {
        lines(items.drop_last()) + items.last() + "\n"@
    }
}

/// One line per violation, each under the rule's id.
pub open spec fn violation_lines(id: Seq<char>, violations: Seq<Seq<char>>) -> Seq<char>
    decreases violations.len(),
{
    if violations.len() == 0 {
        Seq::empty()
    } else {
        violation_lines(id, violations.drop_last()) + id + ": "@ + violations.last() + "\n"@
    }
}

/// The violation lines of every rule, rule by rule.
pub open spec fn rule_lines(rules: Seq<RuleResult>) -> Seq<char>
    decreases rules.len(),
{
    if rules.len() == 0 {
        Seq::empty()
    } else {
        rule_lines(rules.drop_last()) + violation_lines(
            rules.last().id@,
            texts(rules.last().outcome.violations@),
        )
    }
}

/// What one rule did, as the summary line names it.
pub open spec fn rule_summary(r: RuleResult) -> Seq<char> {
    let n = r.outcome.violations@.len();
    if n == 0 {
        r.id@ + ": ok ("@ + r.outcome.scope@ + ")"@
    } else {
        r.id@ + ": "@ + plural_text(n, "violation"@) + " ("@ + r.outcome.scope@ + ")"@
    }
}

/// How many rules there are, how many nothing holds, and how many point
/// at nothing.
pub open spec fn census(rules: nat, unguarded: nat, dead: nat) -> Seq<char> {
    plural_text(rules, "rule"@) + (if unguarded > 0 {
        " ("@ + decimal(unguarded) + " unguarded)"@
    } else {
        Seq::empty()
    }) + (if dead > 0 {
        ", "@ + plural_text(dead, "dead guard"@)
    } else {
        Seq::empty()
    })
}

pub open spec fn no_writ_text(root: Seq<char>) -> Seq<char> {
    "no .writ.tmt found under "@ + root + "\n"@
}

/// The report as the CLI prints it.
pub open spec fn report_text(r: ReportView) -> Seq<char> {
    if r.writ_count == 0 {
        no_writ_text(r.root)
    } else {
        lines(r.dead_guards) + rule_lines(r.rules) + plural_text(r.writ_count, "writ"@) + ", "@
            + census(r.rule_count, r.unguarded_count, r.dead_guards.len()) + ", "@ + join(
            r.rules.map_values(|x: RuleResult| rule_summary(x)),
            ", "@,
        ) + "\n"@
    }
}

proof fn lemma_lines_step(items: Seq<Seq<char>>, i: int)
    requires
        0 <= i < items.len(),
    ensures
        lines(items.subrange(0, i + 1)) == lines(items.subrange(0, i)) + items[i] + "\n"@,
{
    assert(items.subrange(0, i + 1).drop_last() =~= items.subrange(0, i));
}

proof fn lemma_violation_lines_step(id: Seq<char>, vs: Seq<Seq<char>>, i: int)
    requires
        0 <= i < vs.len(),
    ensures
        violation_lines(id, vs.subrange(0, i + 1)) == violation_lines(id, vs.subrange(0, i)) + id
            + ": "@ + vs[i] + "\n"@,
{
    assert(vs.subrange(0, i + 1).drop_last() =~= vs.subrange(0, i));
}

proof fn lemma_rule_lines_step(rules: Seq<RuleResult>, i: int)
    requires
        0 <= i < rules.len(),
    ensures
        rule_lines(rules.subrange(0, i + 1)) == rule_lines(rules.subrange(0, i)) + violation_lines(
            rules[i].id@,
            texts(rules[i].outcome.violations@),
        ),
{
    assert(rules.subrange(0, i + 1).drop_last() =~= rules.subrange(0, i));
}

proof fn lemma_total_step(rules: Seq<RuleResult>, i: int)
    requires
        0 <= i < rules.len(),
    ensures
        violation_total(rules.subrange(0, i + 1)) == violation_total(rules.subrange(0, i))
            + rules[i].outcome.violations@.len(),
{
    assert(rules.subrange(0, i + 1).drop_last() =~= rules.subrange(0, i));
}

/// Every line of `items`.
fn write_lines(out: &mut String, items: &Vec<String>)
    ensures
        final(out)@ == old(out)@ + lines(texts(items@)),
{
    let ghost start = out@;
    let ghost ts = texts(items@);
    let mut i: usize = 0;
    assert(ts.subrange(0, 0) =~= Seq::<Seq<char>>::empty());
    assert(start + Seq::<char>::empty() =~= start);
    while i < items.len()
        invariant
            i <= items.len(),
            ts == texts(items@),
            out@ == start + lines(ts.subrange(0, i as int)),
        decreases items.len() - i,
    {
        out.append(items[i].as_str());
        out.append("\n");
        proof {
            lemma_lines_step(ts, i as int);
            assert(out@ =~= start + lines(ts.subrange(0, i + 1)));
        }
        i = i + 1;
    }
    assert(ts.subrange(0, items.len() as int) =~= ts);
}

/// Every violation of every rule, each on a line under its rule's id.
fn write_rule_lines(out: &mut String, rules: &Vec<RuleResult>)
    ensures
        final(out)@ == old(out)@ + rule_lines(rules@),
{
    let ghost start = out@;
    let mut i: usize = 0;
    assert(rules@.subrange(0, 0) =~= Seq::<RuleResult>::empty());
    assert(start + Seq::<char>::empty() =~= start);
    while i < rules.len()
        invariant
            i <= rules.len(),
            out@ == start + rule_lines(rules@.subrange(0, i as int)),
        decreases rules.len() - i,
    {
        let rule = &rules[i];
        let vs = &rule.outcome.violations;
        let ghost ts = texts(vs@);
        let ghost mid = out@;
        let mut j: usize = 0;
        assert(ts.subrange(0, 0) =~= Seq::<Seq<char>>::empty());
        assert(mid + Seq::<char>::empty() =~= mid);
        while j < vs.len()
            invariant
                j <= vs.len(),
                ts == texts(vs@),
                out@ == mid + violation_lines(rule.id@, ts.subrange(0, j as int)),
            decreases vs.len() - j,
        {
            out.append(rule.id.as_str());
            out.append(": ");
            out.append(vs[j].as_str());
            out.append("\n");
            proof {
                lemma_violation_lines_step(rule.id@, ts, j as int);
                assert(out@ =~= mid + violation_lines(rule.id@, ts.subrange(0, j + 1)));
            }
            j = j + 1;
        }
        proof {
            assert(ts.subrange(0, vs.len() as int) =~= ts);
            lemma_rule_lines_step(rules@, i as int);
            assert(out@ =~= start + rule_lines(rules@.subrange(0, i + 1)));
        }
        i = i + 1;
    }
    assert(rules@.subrange(0, rules.len() as int) =~= rules@);
}

/// What one rule did, as the summary line names it.
fn summary_of(rule: &RuleResult) -> (s: String)
    ensures
        s@ == rule_summary(*rule),
{
    let mut s = rule.id.clone();
    let n = rule.outcome.violations.len();
    if n == 0 {
        s.append(": ok (");
    } else {
        s.append(": ");
        let p = plural(n, "violation");
        s.append(p.as_str());
        s.append(" (");
    }
    s.append(rule.outcome.scope.as_str());
    s.append(")");
    s
}

impl Report {
    /// The report of a run that found no writ under `root`.
    pub open spec fn is_empty_at(self, root: Seq<char>) -> bool {
        &&& self@.root == root
        &&& self@.writ_count == 0
        &&& self@.rule_count == 0
        &&& self@.unguarded_count == 0
        &&& self@.dead_guards.len() == 0
        &&& self@.rules.len() == 0
    }

    /// The total number of findings: rule violations, plus guards that
    /// point at nothing.
    ///
    /// A dead guard counts, and so fails the run. It is not a violation
    /// of the rule it sits on -- the code may well still obey -- but the
    /// writ says a test holds the rule and no test does, and a false
    /// statement in a writ is exactly what this tool is for.
    pub fn violation_count(&self) -> (n: usize)
        requires
            violation_total(self@.rules) + self@.dead_guards.len() <= usize::MAX,
        ensures
            n == violation_total(self@.rules) + self@.dead_guards.len(),
    {
        let mut total: usize = 0;
        let mut i: usize = 0;
        assert(self.rules@.subrange(0, 0) =~= Seq::<RuleResult>::empty());
        proof {
            lemma_total_prefix(self.rules@, self.rules@.len() as int);
            assert(self.rules@.subrange(0, self.rules@.len() as int) =~= self.rules@);
        }
        while i < self.rules.len()
            invariant
                i <= self.rules.len(),
                total == violation_total(self.rules@.subrange(0, i as int)),
                violation_total(self.rules@) + self.dead_guards@.len() <= usize::MAX,
                forall|k: int|
                    0 <= k <= self.rules@.len() ==> violation_total(self.rules@.subrange(0, k))
                        <= violation_total(self.rules@),
            decreases self.rules.len() - i,
        {
            proof {
                lemma_total_step(self.rules@, i as int);
                assert(violation_total(self.rules@.subrange(0, i + 1)) <= violation_total(
                    self.rules@,
                ));
            }
            total = total + self.rules[i].outcome.violations.len();
            i = i + 1;
        }
        assert(self.rules@.subrange(0, self.rules.len() as int) =~= self.rules@);
        total + self.dead_guards.len()
    }

    pub fn rules(&self) -> (r: &[RuleResult])
        ensures
            r@ == self@.rules,
    {
        self.rules.as_slice()
    }

    pub fn writ_count(&self) -> (n: usize)
        ensures
            n == self@.writ_count,
    {
        self.writ_count
    }

    pub fn rule_count(&self) -> (n: usize)
        ensures
            n == self@.rule_count,
    {
        self.rule_count
    }

    pub fn unguarded_count(&self) -> (n: usize)
        ensures
            n == self@.unguarded_count,
    {
        self.unguarded_count
    }

    /// The dead-guard findings, in the order the rules were declared.
    pub fn dead_guards(&self) -> (r: &[String])
        ensures
            texts(r@) == self@.dead_guards,
    {
        self.dead_guards.as_slice()
    }

    /// The report as the CLI prints it, trailing newline included.
    ///
    /// The summary names what each rule *did*, not what this tool is able
    /// to do. The two read the same on a clean repository and diverge
    /// exactly where it matters.
    pub fn render(&self) -> (s: String)
        ensures
            s@ == report_text(self@),
    {
        if self.writ_count == 0 {
            let mut s = owned("no .writ.tmt found under ");
            s.append(self.root.as_str());
            s.append("\n");
            return s;
        }
        let mut out = String::new();
        write_lines(&mut out, &self.dead_guards);
        write_rule_lines(&mut out, &self.rules);

        let mut summary: Vec<String> = Vec::new();
        let mut i: usize = 0;
        while i < self.rules.len()
            invariant
                i <= self.rules.len(),
                texts(summary@) == self.rules@.subrange(0, i as int).map_values(
                    |x: RuleResult| rule_summary(x),
                ),
            decreases self.rules.len() - i,
        {
            let s = summary_of(&self.rules[i]);
            let ghost before = texts(summary@);
            let ghost line = s@;
            summary.push(s);
            assert(texts(summary@) =~= before.push(line));
            assert(self.rules@.subrange(0, i + 1).map_values(|x: RuleResult| rule_summary(x))
                =~= self.rules@.subrange(0, i as int).map_values(|x: RuleResult| rule_summary(x)).push(
                rule_summary(self.rules@[i as int]),
            ));
            i = i + 1;
        }
        assert(self.rules@.subrange(0, self.rules.len() as int) =~= self.rules@);

        let mut census_text = plural(self.rule_count, "rule");
        if self.unguarded_count > 0 {
            census_text.append(" (");
            let n = decimal_text(self.unguarded_count);
            census_text.append(n.as_str());
            census_text.append(" unguarded)");
        }
        if self.dead_guards.len() > 0 {
            census_text.append(", ");
            let p = plural(self.dead_guards.len(), "dead guard");
            census_text.append(p.as_str());
        }
        let writs = plural(self.writ_count, "writ");
        out.append(writs.as_str());
        out.append(", ");
        out.append(census_text.as_str());
        out.append(", ");
        let joined = join_texts(&summary, ", ");
        out.append(joined.as_str());
        out.append("\n");
        out
    }
}

proof fn lemma_total_prefix(rules: Seq<RuleResult>, k: int)
    requires
        0 <= k <= rules.len(),
    ensures
        forall|j: int| 0 <= j <= k ==> violation_total(rules.subrange(0, j)) <= violation_total(
            rules.subrange(0, k),
        ),
    decreases k,
{
    assert(rules.subrange(0, k) =~= rules.subrange(0, k));
    if k > 0 {
        lemma_total_prefix(rules, k - 1);
        lemma_total_step(rules, k - 1);
    }
    if k == rules.len() {
        assert(rules.subrange(0, k) =~= rules);
    }
}

/// One rule as `twrit list` shows it: who holds it, and whether that
/// holder is still there.
pub struct Listed {
    pub id: String,
    /// The holder's spelling -- `twrit`, `runs`, `test`, `none`.
    pub holder: &'static str,
    /// What it points at, or the reason when nobody holds it.
    pub target: String,
    /// A pointer that no longer resolves.
    pub dead: bool,
}

/// Every rule a repository declares, and who holds it.
pub struct Listing {
    root: String,
    writ_count: usize,
    rules: Vec<Listed>,
}

/// A listing as the values it is made of.
pub struct ListingView {
    pub root: Seq<char>,
    pub writ_count: nat,
    pub rules: Seq<Listed>,
}

impl View for Listing {
    type V = ListingView;

    closed spec fn view(&self) -> ListingView {
        ListingView { root: self.root@, writ_count: self.writ_count as nat, rules: self.rules@ }
    }
}

/// How many of `rules` point at something that is not there.
pub open spec fn dead_total(rules: Seq<Listed>) -> nat
    decreases rules.len(),
{
    if rules.len() == 0 {
        0
    } else {
        dead_total(rules.drop_last()) + if rules.last().dead {
            1nat
        } else {
            0nat
        }
    }
}

/// How many of `rules` are held by `holder`.
pub open spec fn held_by(rules: Seq<Listed>, holder: Seq<char>) -> nat
    decreases rules.len(),
{
    if rules.len() == 0 {
        0
    } else {
        held_by(rules.drop_last(), holder) + if rules.last().holder@ == holder {
            1nat
        } else {
            0nat
        }
    }
}

/// The widest id, in bytes.
pub open spec fn id_width(rules: Seq<Listed>) -> nat
    decreases rules.len(),
{
    if rules.len() == 0 {
        0
    } else {
        let w = byte_len(rules.last().id@);
        let rest = id_width(rules.drop_last());
        if w > rest {
            w
        } else {
            rest
        }
    }
}

/// The widest holder, in bytes.
pub open spec fn holder_width(rules: Seq<Listed>) -> nat
    decreases rules.len(),
{
    if rules.len() == 0 {
        0
    } else {
        let w = byte_len(rules.last().holder@);
        let rest = holder_width(rules.drop_last());
        if w > rest {
            w
        } else {
            rest
        }
    }
}

/// One rule's row, padded to the columns.
pub open spec fn listed_line(r: Listed, id_w: nat, holder_w: nat) -> Seq<char> {
    pad(r.id@, id_w) + "  "@ + pad(r.holder@, holder_w) + "  "@ + r.target@ + (if r.dead {
        " -- MISSING"@
    } else {
        Seq::empty()
    }) + "\n"@
}

/// Every row, in order.
pub open spec fn listed_lines(rules: Seq<Listed>, id_w: nat, holder_w: nat) -> Seq<char>
    decreases rules.len(),
{
    if rules.len() == 0 {
        Seq::empty()
    } else {
        listed_lines(rules.drop_last(), id_w, holder_w) + listed_line(rules.last(), id_w, holder_w)
    }
}

/// The listing as `twrit list` prints it.
pub open spec fn listing_text(l: ListingView) -> Seq<char> {
    if l.writ_count == 0 {
        no_writ_text(l.root)
    } else {
        let unguarded = held_by(l.rules, "none"@);
        let dead = dead_total(l.rules);
        listed_lines(l.rules, id_width(l.rules), holder_width(l.rules)) + "\n"@ + plural_text(
            l.writ_count,
            "writ"@,
        ) + ", "@ + plural_text(l.rules.len(), "rule"@) + (if unguarded > 0 {
            " ("@ + decimal(unguarded) + " unguarded)"@
        } else {
            Seq::empty()
        }) + (if dead > 0 {
            ", "@ + plural_text(dead, "dead guard"@)
        } else {
            Seq::empty()
        }) + "\n"@
    }
}

proof fn lemma_listing_step(rules: Seq<Listed>, i: int, id_w: nat, holder_w: nat)
    requires
        0 <= i < rules.len(),
    ensures
        dead_total(rules.subrange(0, i + 1)) == dead_total(rules.subrange(0, i)) + if rules[i].dead {
            1nat
        } else {
            0nat
        },
        held_by(rules.subrange(0, i + 1), "none"@) == held_by(rules.subrange(0, i), "none"@) + if rules[i].holder@
            == "none"@ {
            1nat
        } else {
            0nat
        },
        id_width(rules.subrange(0, i + 1)) == if byte_len(rules[i].id@) > id_width(
            rules.subrange(0, i),
        ) {
            byte_len(rules[i].id@)
        } else {
            id_width(rules.subrange(0, i))
        },
        holder_width(rules.subrange(0, i + 1)) == if byte_len(rules[i].holder@) > holder_width(
            rules.subrange(0, i),
        ) {
            byte_len(rules[i].holder@)
        } else {
            holder_width(rules.subrange(0, i))
        },
        listed_lines(rules.subrange(0, i + 1), id_w, holder_w) == listed_lines(
            rules.subrange(0, i),
            id_w,
            holder_w,
        ) + listed_line(rules[i], id_w, holder_w),
{
    assert(rules.subrange(0, i + 1).drop_last() =~= rules.subrange(0, i));
}

proof fn lemma_counts_bounded(rules: Seq<Listed>)
    ensures
        dead_total(rules) <= rules.len(),
        held_by(rules, "none"@) <= rules.len(),
    decreases rules.len(),
{
    if rules.len() > 0 {
        lemma_counts_bounded(rules.drop_last());
    }
}

impl Listing {
    /// The listing of a run that found no writ under `root`.
    pub open spec fn is_empty_at(self, root: Seq<char>) -> bool {
        &&& self@.root == root
        &&& self@.writ_count == 0
        &&& self@.rules.len() == 0
    }

    pub fn rules(&self) -> (r: &[Listed])
        ensures
            r@ == self@.rules,
    {
        self.rules.as_slice()
    }

    pub fn writ_count(&self) -> (n: usize)
        ensures
            n == self@.writ_count,
    {
        self.writ_count
    }

    /// Rules whose guard points at something that is not there.
    pub fn dead_count(&self) -> (n: usize)
        ensures
            n == dead_total(self@.rules),
    {
        let mut n: usize = 0;
        let mut i: usize = 0;
        while i < self.rules.len()
            invariant
                i <= self.rules.len(),
                n == dead_total(self.rules@.subrange(0, i as int)),
            decreases self.rules.len() - i,
        {
            proof {
                lemma_listing_step(self.rules@, i as int, 0, 0);
                lemma_counts_bounded(self.rules@.subrange(0, i + 1));
            }
            if self.rules[i].dead {
                n = n + 1;
            }
            i = i + 1;
        }
        assert(self.rules@.subrange(0, self.rules.len() as int) =~= self.rules@);
        n
    }

    /// The listing as `twrit list` prints it, trailing newline included.
    #[verifier::spinoff_prover]
    #[verifier::rlimit(40)]
    pub fn render(&self) -> (s: String)
        ensures
            s@ == listing_text(self@),
    {
        if self.writ_count == 0 {
            let mut s = owned("no .writ.tmt found under ");
            s.append(self.root.as_str());
            s.append("\n");
            return s;
        }

        // Two columns of padding, computed from the rows rather than
        // fixed: an id is as long as the author made it.
        let mut id_w: usize = 0;
        let mut holder_w: usize = 0;
        let mut unguarded: usize = 0;
        let mut i: usize = 0;
        while i < self.rules.len()
            invariant
                i <= self.rules.len(),
                id_w == id_width(self.rules@.subrange(0, i as int)),
                holder_w == holder_width(self.rules@.subrange(0, i as int)),
                unguarded == held_by(self.rules@.subrange(0, i as int), "none"@),
            decreases self.rules.len() - i,
        {
            proof {
                lemma_listing_step(self.rules@, i as int, 0, 0);
                lemma_counts_bounded(self.rules@.subrange(0, i + 1));
            }
            let w = self.rules[i].id.as_str().as_bytes().len();
            if w > id_w {
                id_w = w;
            }
            let h = self.rules[i].holder.as_bytes().len();
            if h > holder_w {
                holder_w = h;
            }
            if same_text(self.rules[i].holder, "none") {
                unguarded = unguarded + 1;
            }
            i = i + 1;
        }
        assert(self.rules@.subrange(0, self.rules.len() as int) =~= self.rules@);

        let mut out = String::new();
        let mut j: usize = 0;
        assert(self.rules@.subrange(0, 0) =~= Seq::<Listed>::empty());
        assert(out@ =~= listed_lines(Seq::<Listed>::empty(), id_w as nat, holder_w as nat));
        while j < self.rules.len()
            invariant
                j <= self.rules.len(),
                out@ == listed_lines(self.rules@.subrange(0, j as int), id_w as nat, holder_w as nat),
            decreases self.rules.len() - j,
        {
            let rule = &self.rules[j];
            let id = padded(rule.id.as_str(), id_w);
            out.append(id.as_str());
            out.append("  ");
            let holder = padded(rule.holder, holder_w);
            out.append(holder.as_str());
            out.append("  ");
            out.append(rule.target.as_str());
            if rule.dead {
                out.append(" -- MISSING");
            }
            out.append("\n");
            proof {
                lemma_listing_step(self.rules@, j as int, id_w as nat, holder_w as nat);
                assert(out@ =~= listed_lines(
                    self.rules@.subrange(0, j + 1),
                    id_w as nat,
                    holder_w as nat,
                ));
            }
            j = j + 1;
        }

        let mut summary = owned("\n");
        let writs = plural(self.writ_count, "writ");
        summary.append(writs.as_str());
        summary.append(", ");
        let rules = plural(self.rules.len(), "rule");
        summary.append(rules.as_str());
        if unguarded > 0 {
            summary.append(" (");
            let n = decimal_text(unguarded);
            summary.append(n.as_str());
            summary.append(" unguarded)");
        }
        let dead = self.dead_count();
        if dead > 0 {
            summary.append(", ");
            let p = plural(dead, "dead guard");
            summary.append(p.as_str());
        }
        summary.append("\n");
        out.append(summary.as_str());
        out
    }
}

// ---------------------------------------------------------------------
// Running the rules

/// The rule kinds this tool implements, and the only values `guard:
/// { twrit: ... }` may take.
pub open spec fn is_kind(kind: Seq<char>) -> bool {
    kind == "layers"@ || kind == "pure"@ || kind == "door"@ || kind == "placement"@
}

/// Whether `kind` is one this tool implements.
pub fn implements(kind: &str) -> (r: bool)
    ensures
        r == is_kind(kind@),
{
    same_text(kind, "layers") || same_text(kind, "pure") || same_text(kind, "door") || same_text(
        kind,
        "placement",
    )
}

pub open spec fn unknown_kind_message(rule: Rule, kind: Seq<char>) -> Seq<char> {
    rule.path@ + ": `@rule("@ + rule.id@ + ")` names `twrit: "@ + kind
        + "`, which this tool does not implement; it implements layers, pure, door, placement"@
}

pub open spec fn two_layers_message() -> Seq<char> {
    "more than one rule guards `layers`; a layer order has to be one thing"@
}

/// The first rule naming a kind this tool does not implement, as the
/// message that refuses it.
pub open spec fn unknown_kind(rules: Seq<Rule>) -> Option<Seq<char>>
    decreases rules.len(),
{
    if rules.len() == 0 {
        None
    } else {
        match rules[0].guard {
            Guard::Twrit(k) => if !is_kind(k@) {
                Some(unknown_kind_message(rules[0], k@))
            } else {
                unknown_kind(rules.drop_first())
            },
            _ => unknown_kind(rules.drop_first()),
        }
    }
}

/// Why the declared rules cannot be run at all, if they cannot.
///
/// A rule naming a kind this tool does not implement is refused rather
/// than skipped: skipping it would mean the writ says twrit holds the rule
/// and nothing does. And a layer order is one thing: two of them is not a
/// stricter rule, it is two answers to "which layer is this crate in".
pub open spec fn refusal(rules: Seq<Rule>) -> Option<Seq<char>> {
    match unknown_kind(rules) {
        Some(m) => Some(m),
        None => if rules_of_kind(rules, "layers"@).len() > 1 {
            Some(two_layers_message())
        } else {
            None
        },
    }
}

/// What the rule kind `kind` finds for `rule`.
pub open spec fn kind_outcome(kind: Seq<char>, rule: Rule, ws: Workspace) -> Result<
    (Seq<char>, Set<Seq<char>>),
    Seq<char>,
> {
    if kind == "layers"@ {
        layers_outcome(rule, ws)
    } else if kind == "pure"@ {
        pure_outcome(rule, ws)
    } else if kind == "door"@ {
        door_outcome(rule, ws)
    } else {
        placement_outcome(rule, ws)
    }
}

/// Each rule this tool holds, in order, with what it found: id, scope and
/// findings; the first rule that cannot run is an error.
pub open spec fn run_all(rules: Seq<Rule>, ws: Workspace) -> Result<
    Seq<(Seq<char>, Seq<char>, Set<Seq<char>>)>,
    Seq<char>,
>
    decreases rules.len(),
{
    if rules.len() == 0 {
        Ok(Seq::empty())
    } else {
        match rules[0].guard {
            Guard::Twrit(k) => match kind_outcome(k@, rules[0], ws) {
                Err(e) => Err(e),
                Ok(o) => prepend(seq![(rules[0].id@, o.0, o.1)], run_all(rules.drop_first(), ws)),
            },
            _ => run_all(rules.drop_first(), ws),
        }
    }
}

/// A test guard whose path is missing, as the finding that says so.
pub open spec fn dead_target(rule: Rule, missing: Seq<Seq<char>>) -> Option<Seq<char>> {
    match rule.guard {
        Guard::Test(p) => if missing.contains(p@) {
            Some(p@)
        } else {
            None
        },
        _ => None,
    }
}

pub open spec fn dead_guard_message(id: Seq<char>, target: Seq<char>) -> Seq<char> {
    id + ": guard names "@ + target + ", which does not exist"@
}

/// The dead-guard findings, in declaration order.
pub open spec fn dead_lines(rules: Seq<Rule>, missing: Seq<Seq<char>>) -> Seq<Seq<char>>
    decreases rules.len(),
{
    if rules.len() == 0 {
        Seq::empty()
    } else {
        let rest = dead_lines(rules.drop_last(), missing);
        match dead_target(rules.last(), missing) {
            Some(t) => rest.push(dead_guard_message(rules.last().id@, t)),
            None => rest,
        }
    }
}

/// How many rules nothing holds, said out loud.
pub open spec fn unguarded(rules: Seq<Rule>) -> nat
    decreases rules.len(),
{
    if rules.len() == 0 {
        0
    } else {
        unguarded(rules.drop_last()) + match rules.last().guard {
            Guard::Nobody(_) => 1nat,
            _ => 0nat,
        }
    }
}

/// Whether the results are the expected ones, one for one.
pub open spec fn results_are(
    results: Seq<RuleResult>,
    expected: Seq<(Seq<char>, Seq<char>, Set<Seq<char>>)>,
) -> bool {
    &&& results.len() == expected.len()
    &&& forall|k: int|
        0 <= k < results.len() ==> {
            let r = #[trigger] results[k];
            &&& r.id@ == expected[k].0
            &&& r.outcome.scope@ == expected[k].1
            &&& strictly_sorted(texts(r.outcome.violations@))
            &&& texts(r.outcome.violations@).to_set() == expected[k].2
        }
}

/// What `check` answers for a tree with at least one writ.
pub open spec fn check_answer(
    r: Result<Report, String>,
    root: Seq<char>,
    writs: Seq<Writ>,
    ws: Workspace,
    missing: Seq<Seq<char>>,
) -> bool {
    match all_rules(writs) {
        Err(e) => r is Err && r->Err_0@ == e,
        Ok(rules) => rules_answer(r, root, writs.len(), rules, ws, missing),
    }
}

/// What a run over the declared rules of `writ_count` writs answers.
pub open spec fn rules_answer(
    r: Result<Report, String>,
    root: Seq<char>,
    writ_count: nat,
    rules: Seq<Rule>,
    ws: Workspace,
    missing: Seq<Seq<char>>,
) -> bool {
    match refusal(rules) {
        Some(e) => r is Err && r->Err_0@ == e,
        None => match run_all(rules, ws) {
            Err(e) => r is Err && r->Err_0@ == e,
            Ok(expected) => r is Ok && {
                let rep = r->Ok_0@;
                &&& rep.root == root
                &&& rep.writ_count == writ_count
                &&& rep.rule_count == rules.len()
                &&& rep.unguarded_count == unguarded(rules)
                &&& rep.dead_guards == dead_lines(rules, missing)
                &&& results_are(rep.rules, expected)
            },
        },
    }
}

fn refuse_unknown(rules: &Vec<Rule>) -> (r: Result<(), String>)
    ensures
        match r {
            Ok(()) => unknown_kind(rules@) is None,
            Err(e) => unknown_kind(rules@) == Some(e@),
        },
{
    let mut i: usize = 0;
    assert(rules@.subrange(0, rules@.len() as int) =~= rules@);
    while i < rules.len()
        invariant
            i <= rules.len(),
            unknown_kind(rules@) == unknown_kind(rules@.subrange(i as int, rules@.len() as int)),
        decreases rules.len() - i,
    {
        let ghost tail = rules@.subrange(i as int, rules@.len() as int);
        assert(tail.drop_first() =~= rules@.subrange(i + 1, rules@.len() as int));
        assert(tail[0] == rules@[i as int]);
        let rule = &rules[i];
        match &rule.guard {
            Guard::Twrit(kind) => {
                if !implements(kind.as_str()) {
                    let mut m = rule.path.clone();
                    m.append(": `@rule(");
                    m.append(rule.id.as_str());
                    m.append(")` names `twrit: ");
                    m.append(kind.as_str());
                    m.append("`, which this tool does not implement; it implements layers, pure, door, placement");
                    return Err(m);
                }
            },
            _ => {},
        }
        i = i + 1;
    }
    Ok(())
}

fn count_layers(rules: &Vec<Rule>) -> (n: usize)
    ensures
        n == rules_of_kind(rules@, "layers"@).len(),
{
    let mut n: usize = 0;
    let mut i: usize = 0;
    while i < rules.len()
        invariant
            i <= rules.len(),
            n == rules_of_kind(rules@.subrange(0, i as int), "layers"@).len(),
            n <= i,
        decreases rules.len() - i,
    {
        proof {
            let next = rules@.subrange(0, i + 1);
            assert(next.drop_last() =~= rules@.subrange(0, i as int));
            reveal_with_fuel(Seq::filter, 1);
        }
        if rules[i].guard.is_twrit("layers") {
            n = n + 1;
        }
        i = i + 1;
    }
    assert(rules@.subrange(0, rules@.len() as int) =~= rules@);
    n
}

fn run_rules(rules: &Vec<Rule>, ws: &Workspace) -> (r: Result<Vec<RuleResult>, String>)
    requires
        unknown_kind(rules@) is None,
    ensures
        match r {
            Ok(v) => run_all(rules@, *ws) matches Ok(expected) && results_are(v@, expected),
            Err(e) => run_all(rules@, *ws) == Err::<Seq<(Seq<char>, Seq<char>, Set<Seq<char>>)>, Seq<char>>(e@),
        },
{
    let ghost mut done: Seq<(Seq<char>, Seq<char>, Set<Seq<char>>)> = Seq::empty();
    let mut results: Vec<RuleResult> = Vec::new();
    let mut i: usize = 0;
    assert(rules@.subrange(0, rules@.len() as int) =~= rules@);
    proof {
        match run_all(rules@, *ws) {
            Ok(x) => {
                assert(Seq::<(Seq<char>, Seq<char>, Set<Seq<char>>)>::empty() + x =~= x);
            },
            Err(_) => {},
        }
    }
    while i < rules.len()
        invariant
            i <= rules.len(),
            unknown_kind(rules@.subrange(i as int, rules@.len() as int)) is None,
            results_are(results@, done),
            run_all(rules@, *ws) == prepend(done, run_all(rules@.subrange(i as int, rules@.len() as int), *ws)),
        decreases rules.len() - i,
    {
        let ghost tail = rules@.subrange(i as int, rules@.len() as int);
        assert(tail.drop_first() =~= rules@.subrange(i + 1, rules@.len() as int));
        assert(tail[0] == rules@[i as int]);
        let rule = &rules[i];
        match &rule.guard {
            Guard::Twrit(kind) => {
                let outcome = if same_text(kind.as_str(), "layers") {
                    layering::check(rule, ws)
                } else if same_text(kind.as_str(), "pure") {
                    purity::check(rule, ws)
                } else if same_text(kind.as_str(), "door") {
                    door::check(rule, ws)
                } else {
                    placement::check(rule, ws)
                };
                match outcome {
                    Ok(o) => {
                        let ghost entry = (rule.id@, o.scope@, texts(o.violations@).to_set());
                        proof {
                            let ex = kind_outcome(kind@, *rule, *ws)->Ok_0;
                            assert(entry == (rule.id@, ex.0, ex.1));
                            lemma_prepend_assoc_results(done, seq![entry], run_all(tail.drop_first(), *ws));
                            done = done + seq![entry];
                        }
                        let ghost before = results@;
                        results.push(RuleResult { id: rule.id.clone(), outcome: o });
                        proof {
                            assert forall|k: int| 0 <= k < results@.len() implies {
                                let r = #[trigger] results@[k];
                                &&& r.id@ == done[k].0
                                &&& r.outcome.scope@ == done[k].1
                                &&& strictly_sorted(texts(r.outcome.violations@))
                                &&& texts(r.outcome.violations@).to_set() == done[k].2
                            } by {
                                if k < results@.len() - 1 {
                                    assert(results@[k] == before[k]);
                                }
                            }
                        }
                    },
                    Err(e) => {
                        return Err(e);
                    },
                }
            },
            _ => {},
        }
        i = i + 1;
    }
    proof {
        assert(rules@.subrange(rules@.len() as int, rules@.len() as int) =~= Seq::<Rule>::empty());
        assert(done + Seq::<(Seq<char>, Seq<char>, Set<Seq<char>>)>::empty() =~= done);
    }
    Ok(results)
}

proof fn lemma_prepend_assoc_results<T>(a: Seq<T>, b: Seq<T>, r: Result<Seq<T>, Seq<char>>)
    ensures
        prepend(a, prepend(b, r)) == prepend(a + b, r),
{
    match r {
        Ok(s) => {
            assert(a + (b + s) =~= (a + b) + s);
        },
        Err(_) => {},
    }
}

fn dead_guards(rules: &Vec<Rule>, missing: &Vec<String>) -> (r: Vec<String>)
    ensures
        texts(r@) == dead_lines(rules@, texts(missing@)),
{
    let mut out: Vec<String> = Vec::new();
    let mut i: usize = 0;
    assert(texts(out@) =~= Seq::<Seq<char>>::empty());
    while i < rules.len()
        invariant
            i <= rules.len(),
            texts(out@) == dead_lines(rules@.subrange(0, i as int), texts(missing@)),
        decreases rules.len() - i,
    {
        assert(rules@.subrange(0, i + 1).drop_last() =~= rules@.subrange(0, i as int));
        let rule = &rules[i];
        match &rule.guard {
            Guard::Test(path) => {
                if holds(missing, path.as_str()) {
                    let mut line = rule.id.clone();
                    line.append(": guard names ");
                    line.append(path.as_str());
                    line.append(", which does not exist");
                    let ghost before = texts(out@);
                    let ghost lv = line@;
                    out.push(line);
                    assert(texts(out@) =~= before.push(lv));
                }
            },
            _ => {},
        }
        i = i + 1;
    }
    assert(rules@.subrange(0, rules@.len() as int) =~= rules@);
    out
}

fn count_unguarded(rules: &Vec<Rule>) -> (n: usize)
    ensures
        n == unguarded(rules@),
{
    let mut n: usize = 0;
    let mut i: usize = 0;
    while i < rules.len()
        invariant
            i <= rules.len(),
            n == unguarded(rules@.subrange(0, i as int)),
            n <= i,
        decreases rules.len() - i,
    {
        assert(rules@.subrange(0, i + 1).drop_last() =~= rules@.subrange(0, i as int));
        match &rules[i].guard {
            Guard::Nobody(_) => {
                n = n + 1;
            },
            _ => {},
        }
        i = i + 1;
    }
    assert(rules@.subrange(0, rules@.len() as int) =~= rules@);
    n
}

/// Reads every writ and runs each rule this tool holds against the
/// workspace.
///
/// `root` is the root as it is shown; `writs` are the writs at or below
/// it, in walk order; `missing` are the paths named by `test:` guards that
/// do not exist under it.
pub fn check(root: String, writs: Vec<Writ>, ws: &Workspace, missing: &Vec<String>) -> (r: Result<
    Report,
    String,
>)
    ensures
        writs@.len() == 0 ==> r is Ok && r->Ok_0.is_empty_at(root@),
        writs@.len() > 0 ==> check_answer(r, root@, writs@, *ws, texts(missing@)),
{
    if writs.len() == 0 {
        return Ok(
            Report {
                root,
                writ_count: 0,
                rule_count: 0,
                unguarded_count: 0,
                dead_guards: Vec::new(),
                rules: Vec::new(),
            },
        );
    }
    let writ_count = writs.len();
    let declared = match declared_rules(writs) {
        Ok(d) => d,
        Err(e) => {
            return Err(e);
        },
    };
    check_declared(root, writ_count, declared, ws, missing)
}

/// Runs the rules the writs declared; `check` once the writs are read.
///
/// `missing` are the paths named by `test:` guards among `declared` that
/// do not exist under the root.
pub fn check_declared(
    root: String,
    writ_count: usize,
    declared: Vec<Rule>,
    ws: &Workspace,
    missing: &Vec<String>,
) -> (r: Result<Report, String>)
    ensures
        rules_answer(r, root@, writ_count as nat, declared@, *ws, texts(missing@)),
{
    match refuse_unknown(&declared) {
        Ok(()) => {},
        Err(e) => {
            return Err(e);
        },
    }
    if count_layers(&declared) > 1 {
        return Err(owned("more than one rule guards `layers`; a layer order has to be one thing"));
    }
    let rules = match run_rules(&declared, ws) {
        Ok(r) => r,
        Err(e) => {
            return Err(e);
        },
    };
    let dead = dead_guards(&declared, missing);
    let unguarded_count = count_unguarded(&declared);
    Ok(
        Report {
            root,
            writ_count,
            rule_count: declared.len(),
            unguarded_count,
            dead_guards: dead,
            rules,
        },
    )
}

// ---------------------------------------------------------------------
// Listing the rules

/// The holder's spelling.
pub open spec fn holder_word(g: Guard) -> Seq<char> {
    match g {
        Guard::Twrit(_) => "twrit"@,
        Guard::Runs(_) => "runs"@,
        Guard::Test(_) => "test"@,
        Guard::Nobody(_) => "none"@,
    }
}

/// What a guard points at, or the reason when nobody holds the rule.
pub open spec fn guard_target(g: Guard) -> Seq<char> {
    match g {
        Guard::Twrit(k) => k@,
        Guard::Runs(c) => c@,
        Guard::Test(p) => p@,
        Guard::Nobody(w) => w@,
    }
}

/// Whether a guard points at nothing: a kind this tool does not
/// implement, or a test that is not there.
pub open spec fn guard_dead(rule: Rule, missing: Seq<Seq<char>>) -> bool {
    (match rule.guard {
        Guard::Twrit(k) => !is_kind(k@),
        _ => false,
    }) || dead_target(rule, missing) is Some
}

/// `l` is how `twrit list` shows `rule`.
pub open spec fn lists(l: Listed, rule: Rule, missing: Seq<Seq<char>>) -> bool {
    &&& l.id@ == rule.id@
    &&& l.holder@ == holder_word(rule.guard)
    &&& l.target@ == guard_target(rule.guard)
    &&& l.dead == guard_dead(rule, missing)
}

fn listed(rule: Rule, missing: &Vec<String>) -> (l: Listed)
    ensures
        lists(l, rule, texts(missing@)),
{
    let Rule { id, guard, path: _, group: _ } = rule;
    proof {
        reveal_strlit("twrit");
        reveal_strlit("runs");
        reveal_strlit("test");
        reveal_strlit("none");
    }
    match guard {
        Guard::Twrit(kind) => {
            let dead = !implements(kind.as_str());
            Listed { id, holder: "twrit", target: kind, dead }
        },
        Guard::Runs(cmd) => Listed { id, holder: "runs", target: cmd, dead: false },
        Guard::Test(path) => {
            let dead = holds(missing, path.as_str());
            Listed { id, holder: "test", target: path, dead }
        },
        Guard::Nobody(why) => Listed { id, holder: "none", target: why, dead: false },
    }
}

/// What `list` answers for a tree with at least one writ.
pub open spec fn list_answer(
    r: Result<Listing, String>,
    root: Seq<char>,
    writs: Seq<Writ>,
    missing: Seq<Seq<char>>,
) -> bool {
    match all_rules(writs) {
        Err(e) => r is Err && r->Err_0@ == e,
        Ok(rules) => r is Ok && listing_of(r->Ok_0, root, writs.len(), rules, missing),
    }
}

/// `l` lists `rules`, one row each, in order.
pub open spec fn listing_of(
    l: Listing,
    root: Seq<char>,
    writ_count: nat,
    rules: Seq<Rule>,
    missing: Seq<Seq<char>>,
) -> bool {
    &&& l@.root == root
    &&& l@.writ_count == writ_count
    &&& l@.rules.len() == rules.len()
    &&& forall|k: int| 0 <= k < rules.len() ==> lists(#[trigger] l@.rules[k], rules[k], missing)
}

/// Lists every rule the writs declare, and who holds it.
///
/// `check` asks whether the code obeys its rules. This asks whether
/// anything is holding them, which is the question that has no other
/// answer -- a rule guarded by a test nobody kept is still written down,
/// still named, and held by nothing.
pub fn list(root: String, writs: Vec<Writ>, missing: &Vec<String>) -> (r: Result<Listing, String>)
    ensures
        writs@.len() == 0 ==> r is Ok && r->Ok_0.is_empty_at(root@),
        writs@.len() > 0 ==> list_answer(r, root@, writs@, texts(missing@)),
{
    if writs.len() == 0 {
        return Ok(Listing { root, writ_count: 0, rules: Vec::new() });
    }
    let writ_count = writs.len();
    let declared = match declared_rules(writs) {
        Ok(d) => d,
        Err(e) => {
            return Err(e);
        },
    };
    Ok(list_declared(root, writ_count, declared, missing))
}

/// Lists the rules the writs declared; `list` once the writs are read.
pub fn list_declared(root: String, writ_count: usize, declared: Vec<Rule>, missing: &Vec<String>) -> (l: Listing)
    ensures
        listing_of(l, root@, writ_count as nat, declared@, texts(missing@)),
{
    let ghost all = declared@;
    let mut rest = declared;
    let mut rules: Vec<Listed> = Vec::new();
    let ghost mut taken: int = 0;
    while rest.len() > 0
        invariant
            0 <= taken <= all.len(),
            rest@ == all.subrange(taken, all.len() as int),
            rules@.len() == taken,
            forall|k: int| 0 <= k < taken ==> lists(#[trigger] rules@[k], all[k], texts(missing@)),
        decreases rest.len(),
    {
        let rule = rest.remove(0);
        assert(rule == all[taken]);
        let l = listed(rule, missing);
        rules.push(l);
        proof {
            assert(rest@ =~= all.subrange(taken + 1, all.len() as int));
            taken = taken + 1;
        }
    }
    Listing { root, writ_count, rules }
}

} // verus!
