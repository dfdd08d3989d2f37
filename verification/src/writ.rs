//! Reading `.writ.tmt` entries.
//!
//! A writ is an author-owned normative file, one per directory, scoped to
//! that directory. Its elements arrive here already parsed, and already
//! resolved: `@rule` and `@writ.rule` are two spellings of one element, and
//! only the ones that resolve to `writ.rule` are handed over. This module
//! reads each entry's declaration; deciding what a given rule *means* is
//! each guard's own job.

use vstd::prelude::*;

use crate::text::{blank, decimal, decimal_text, is_blank, owned, same_text, texts};

verus! {

/// A value in a writ, as the document parser produced it.
///
/// A list and a table carry, beside their contents, the text the parser
/// shows for them, which is what a message names when one turns up where
/// a string was wanted.
#[derive(Debug)]
pub enum Value {
    Text(String),
    List(Vec<Value>, String),
    Table(Vec<(String, Value)>, String),
    /// Any other kind of value, by the text the parser shows for it.
    Other(String),
}

impl Value {
    /// How the parser shows this value.
    pub open spec fn shown(&self) -> Seq<char> {
        match self {
            Value::Text(s) => s@,
            Value::List(_, d) => d@,
            Value::Table(_, d) => d@,
            Value::Other(d) => d@,
        }
    }

    /// How the parser shows this value.
    pub fn show(&self) -> (r: String)
        ensures
            r@ == self.shown(),
    {
        match self {
            Value::Text(s) => s.clone(),
            Value::List(_, d) => d.clone(),
            Value::Table(_, d) => d.clone(),
            Value::Other(d) => d.clone(),
        }
    }
}

/// One entry of an element's `{...}` group.
#[derive(Debug)]
pub enum Entry {
    /// `key: value`.
    Pair(String, Value),
    /// Anything else a group may hold.
    Other,
}

/// One element of a writ that resolves to `writ.rule`: its `(...)`
/// arguments and its `{...}` group, when it has them.
#[derive(Debug)]
pub struct Element {
    pub args: Option<Value>,
    pub group: Option<Vec<Entry>>,
}

/// One parsed writ, kept with its path so a violation can name the file the
/// rule came from rather than just the rule.
#[derive(Debug)]
pub struct Writ {
    pub path: String,
    /// The rule elements, in document order.
    pub elements: Vec<Element>,
}

/// Who guarantees a rule right now, and nothing else.
///
/// The writ holds the rule and the reason; whatever enforces it lives
/// outside and is only named here. A guard is a pointer, never a program.
#[derive(Debug, PartialEq, Eq)]
pub enum Guard {
    /// A rule kind this tool implements. Parameters come from the same
    /// group.
    Twrit(String),
    /// A runner the repository already ships. Recorded, never executed.
    Runs(String),
    /// A test in the repository being checked. What can be verified from
    /// here is that the path still exists.
    Test(String),
    /// Nobody, said out loud, with why not.
    Nobody(String),
}

impl Clone for Guard {
    fn clone(&self) -> (r: Self)
        ensures
            r == *self,
    {
        match self {
            Guard::Twrit(s) => Guard::Twrit(s.clone()),
            Guard::Runs(s) => Guard::Runs(s.clone()),
            Guard::Test(s) => Guard::Test(s.clone()),
            Guard::Nobody(s) => Guard::Nobody(s.clone()),
        }
    }
}

impl Guard {
    /// Whether this guard says this tool holds the rule, as kind `kind`.
    pub open spec fn names_kind(&self, kind: Seq<char>) -> bool {
        match self {
            Guard::Twrit(k) => k@ == kind,
            _ => false,
        }
    }

    /// Whether this guard is `twrit: kind`.
    pub fn is_twrit(&self, kind: &str) -> (r: bool)
        ensures
            r == self.names_kind(kind@),
    {
        match self {
            Guard::Twrit(k) => same_text(k.as_str(), kind),
            _ => false,
        }
    }
}

/// One entry: its id, who holds it, and the parameters it declares.
#[derive(Debug)]
pub struct Rule {
    pub id: String,
    pub guard: Guard,
    /// Which writ it came from, so a violation can name the file.
    pub path: String,
    /// The entry's own group, where its parameters live.
    pub group: Vec<Entry>,
}

// ---------------------------------------------------------------------
// What reading an entry means

/// The first `key: { ... }` in `group`.
pub open spec fn param(group: Seq<Entry>, key: Seq<char>) -> Option<Vec<(String, Value)>>
    decreases group.len(),
{
    if group.len() == 0 {
        None
    } else {
        match group[0] {
            Entry::Pair(k, Value::Table(entries, _)) => if k@ == key {
                Some(entries)
            } else {
                param(group.drop_first(), key)
            },
            _ => param(group.drop_first(), key),
        }
    }
}

/// `acc` in front of whatever a later step gave, or that step's error.
pub open spec fn prepend<T>(acc: Seq<T>, r: Result<Seq<T>, Seq<char>>) -> Result<
    Seq<T>,
    Seq<char>,
> {
    match r {
        Ok(s) => Ok(acc + s),
        Err(e) => Err(e),
    }
}

pub open spec fn guard_count_message(id: Seq<char>, n: nat) -> Seq<char> {
    "`@rule("@ + id + ")`'s `guard` holds "@ + decimal(n) + " entries; it names exactly one holder"@
}

pub open spec fn guard_not_text_message(id: Seq<char>, key: Seq<char>, shown: Seq<char>) -> Seq<
    char,
> {
    "`@rule("@ + id + ")`'s `guard: "@ + key + "` is not a string: "@ + shown
}

pub open spec fn guard_no_reason_message(id: Seq<char>) -> Seq<char> {
    "`@rule("@ + id
        + ")`'s `guard: none` has no reason; an unguarded rule says why, so it cannot be read as an oversight"@
}

pub open spec fn guard_unknown_message(id: Seq<char>, key: Seq<char>) -> Seq<char> {
    "`@rule("@ + id + ")`'s guard holder `"@ + key + "` is not one of `twrit`, `runs`, `test`, `none`"@
}

/// The guard a `guard: { holder: "..." }` map declares.
pub open spec fn guard_from(entries: Seq<(String, Value)>, id: Seq<char>) -> Result<
    Guard,
    Seq<char>,
> {
    if entries.len() != 1 {
        Err(guard_count_message(id, entries.len()))
    } else {
        let key = entries[0].0;
        match entries[0].1 {
            Value::Text(text) => if key@ == "twrit"@ {
                Ok(Guard::Twrit(text))
            } else if key@ == "runs"@ {
                Ok(Guard::Runs(text))
            } else if key@ == "test"@ {
                Ok(Guard::Test(text))
            } else if key@ == "none"@ {
                if is_blank(text@) {
                    Err(guard_no_reason_message(id))
                } else {
                    Ok(Guard::Nobody(text))
                }
            } else {
                Err(guard_unknown_message(id, key@))
            },
            other => Err(guard_not_text_message(id, key@, other.shown())),
        }
    }
}

pub open spec fn id_not_name_message(path: Seq<char>, shown: Seq<char>) -> Seq<char> {
    path + ": `@rule`'s id is not a bare name: "@ + shown
}

pub open spec fn no_id_message(path: Seq<char>) -> Seq<char> {
    path + ": a `@rule` carries no id; the heading is prose and cannot serve as one"@
}

pub open spec fn no_group_message(path: Seq<char>, id: Seq<char>) -> Seq<char> {
    path + ": `@rule("@ + id
        + ")` has no `{...}` group, so it declares neither a guard nor parameters"@
}

pub open spec fn no_guard_message(path: Seq<char>, id: Seq<char>) -> Seq<char> {
    path + ": `@rule("@ + id
        + ")` declares no `guard`; write `guard: { none: \"...\" }` when nothing holds it yet"@
}

/// The rule one element declares, or why it declares none.
pub open spec fn rule_from(path: String, el: Element) -> Result<Rule, Seq<char>> {
    match el.args {
        Some(Value::Text(id)) => match el.group {
            Some(group) => match param(group@, "guard"@) {
                Some(entries) => match guard_from(entries@, id@) {
                    Ok(guard) => Ok(Rule { id, guard, path, group }),
                    Err(e) => Err(path@ + ": "@ + e),
                },
                None => Err(no_guard_message(path@, id@)),
            },
            None => Err(no_group_message(path@, id@)),
        },
        Some(other) => Err(id_not_name_message(path@, other.shown())),
        None => Err(no_id_message(path@)),
    }
}

/// The rules of a writ's elements, in document order, or the first
/// element's error.
pub open spec fn rules_from(path: String, els: Seq<Element>) -> Result<Seq<Rule>, Seq<char>>
    decreases els.len(),
{
    if els.len() == 0 {
        Ok(Seq::empty())
    } else {
        match rule_from(path, els[0]) {
            Ok(r) => prepend(seq![r], rules_from(path, els.drop_first())),
            Err(e) => Err(e),
        }
    }
}

pub open spec fn not_list_message(what: Seq<char>, key: Seq<char>) -> Seq<char> {
    what + "'s `"@ + key + "` is not a list"@
}

pub open spec fn not_text_entry_message(what: Seq<char>, key: Seq<char>, shown: Seq<char>) -> Seq<
    char,
> {
    what + "'s `"@ + key + "` holds a non-string entry: "@ + shown
}

/// The strings of a list's items, or the first item that is not one.
pub open spec fn item_texts(what: Seq<char>, key: Seq<char>, items: Seq<Value>) -> Result<
    Seq<Seq<char>>,
    Seq<char>,
>
    decreases items.len(),
{
    if items.len() == 0 {
        Ok(Seq::empty())
    } else {
        match items[0] {
            Value::Text(s) => prepend(seq![s@], item_texts(what, key, items.drop_first())),
            other => Err(not_text_entry_message(what, key, other.shown())),
        }
    }
}

/// A `key: [string, ...]` parameter read as its strings.
pub open spec fn list_texts(what: Seq<char>, key: Seq<char>, value: Value) -> Result<
    Seq<Seq<char>>,
    Seq<char>,
> {
    match value {
        Value::List(items, _) => item_texts(what, key, items@),
        _ => Err(not_list_message(what, key)),
    }
}

/// Every `key: [string, ...]` pair of a map, or the first one that is not.
pub open spec fn lists_from(what: Seq<char>, entries: Seq<(String, Value)>) -> Result<
    Seq<(Seq<char>, Seq<Seq<char>>)>,
    Seq<char>,
>
    decreases entries.len(),
{
    if entries.len() == 0 {
        Ok(Seq::empty())
    } else {
        match list_texts(what, entries[0].0@, entries[0].1) {
            Ok(items) => prepend(
                seq![(entries[0].0@, items)],
                lists_from(what, entries.drop_first()),
            ),
            Err(e) => Err(e),
        }
    }
}

/// The rules whose guard names `kind`, across `rules`.
pub open spec fn rules_of_kind(rules: Seq<Rule>, kind: Seq<char>) -> Seq<Rule> {
    rules.filter(|r: Rule| r.guard.names_kind(kind))
}

/// What a run of `step` over `items` gave, read back as strings.
pub open spec fn read_as<T>(r: Result<Vec<T>, String>, s: Result<Seq<T>, Seq<char>>) -> bool {
    match r {
        Ok(v) => s == Ok::<Seq<T>, Seq<char>>(v@),
        Err(e) => s == Err::<Seq<T>, Seq<char>>(e@),
    }
}

/// Texts read back as their views.
pub open spec fn read_as_texts(r: Result<Vec<String>, String>, s: Result<Seq<Seq<char>>, Seq<char>>) -> bool {
    match r {
        Ok(v) => s == Ok::<Seq<Seq<char>>, Seq<char>>(texts(v@)),
        Err(e) => s == Err::<Seq<Seq<char>>, Seq<char>>(e@),
    }
}

// ---------------------------------------------------------------------
// Reading

proof fn lemma_prepend_assoc<T>(a: Seq<T>, b: Seq<T>, r: Result<Seq<T>, Seq<char>>)
    ensures
        prepend(a, prepend(b, r)) == prepend(a + b, r),
{
    match r {
        Ok(s) => {
            assert(a + (b + s) =~= (a + b) + s);
        },
        Err(_) => {},
    }
}

proof fn lemma_prepend_empty<T>(r: Result<Seq<T>, Seq<char>>)
    ensures
        prepend(Seq::<T>::empty(), r) == r,
{
    match r {
        Ok(s) => {
            assert(Seq::<T>::empty() + s =~= s);
        },
        Err(_) => {},
    }
}

proof fn lemma_skip_step<T>(s: Seq<T>, i: int)
    requires
        0 <= i < s.len(),
    ensures
        s.subrange(i, s.len() as int).drop_first() == s.subrange(i + 1, s.len() as int),
        s.subrange(i, s.len() as int)[0] == s[i],
{
    assert(s.subrange(i, s.len() as int).drop_first() =~= s.subrange(i + 1, s.len() as int));
}

impl Guard {
    /// The guard a `guard: { holder: "..." }` map declares.
    pub fn from_map(entries: &Vec<(String, Value)>, id: &str) -> (r: Result<Guard, String>)
        ensures
            match r {
                Ok(g) => guard_from(entries@, id@) == Ok::<Guard, Seq<char>>(g),
                Err(e) => guard_from(entries@, id@) == Err::<Guard, Seq<char>>(e@),
            },
    {
        if entries.len() != 1 {
            let mut m = owned("`@rule(");
            m.append(id);
            m.append(")`'s `guard` holds ");
            let n = decimal_text(entries.len());
            m.append(n.as_str());
            m.append(" entries; it names exactly one holder");
            return Err(m);
        }
        let key = &entries[0].0;
        let text = match &entries[0].1 {
            Value::Text(s) => s,
            other => {
                let mut m = owned("`@rule(");
                m.append(id);
                m.append(")`'s `guard: ");
                m.append(key.as_str());
                m.append("` is not a string: ");
                let shown = other.show();
                m.append(shown.as_str());
                return Err(m);
            },
        };
        if same_text(key.as_str(), "twrit") {
            Ok(Guard::Twrit(text.clone()))
        } else if same_text(key.as_str(), "runs") {
            Ok(Guard::Runs(text.clone()))
        } else if same_text(key.as_str(), "test") {
            Ok(Guard::Test(text.clone()))
        } else if same_text(key.as_str(), "none") {
            if blank(text.as_str()) {
                let mut m = owned("`@rule(");
                m.append(id);
                m.append(
                    ")`'s `guard: none` has no reason; an unguarded rule says why, so it cannot be read as an oversight",
                );
                Err(m)
            } else {
                Ok(Guard::Nobody(text.clone()))
            }
        } else {
            let mut m = owned("`@rule(");
            m.append(id);
            m.append(")`'s guard holder `");
            m.append(key.as_str());
            m.append("` is not one of `twrit`, `runs`, `test`, `none`");
            Err(m)
        }
    }
}

/// The first `key: { ... }` of a group, by position.
fn find_param(group: &Vec<Entry>, key: &str) -> (r: Option<usize>)
    ensures
        match r {
            Some(k) => k < group@.len() && match group@[k as int] {
                Entry::Pair(_, Value::Table(entries, _)) => param(group@, key@) == Some(entries),
                _ => false,
            },
            None => param(group@, key@) is None,
        },
{
    let mut i: usize = 0;
    assert(group@.subrange(0, group@.len() as int) =~= group@);
    while i < group.len()
        invariant
            i <= group.len(),
            param(group@, key@) == param(group@.subrange(i as int, group@.len() as int), key@),
        decreases group.len() - i,
    {
        proof {
            lemma_skip_step(group@, i as int);
        }
        match &group[i] {
            Entry::Pair(k, Value::Table(_, _)) => {
                if same_text(k.as_str(), key) {
                    return Some(i);
                }
            },
            _ => {},
        }
        i = i + 1;
    }
    None
}

impl Rule {
    /// A nested `key: { ... }` from this rule's own group.
    ///
    /// The parameters live inside the entry rather than beside it, which
    /// is what makes a dropped blank line a parse error instead of a
    /// declaration nobody owns.
    pub fn map(&self, key: &str) -> (r: Option<&Vec<(String, Value)>>)
        ensures
            match r {
                Some(e) => param(self.group@, key@) == Some(*e),
                None => param(self.group@, key@) is None,
            },
    {
        match find_param(&self.group, key) {
            Some(k) => match &self.group[k] {
                Entry::Pair(_, Value::Table(entries, _)) => Some(entries),
                _ => None,
            },
            None => None,
        }
    }
}

/// The rule one element declares.
fn read_rule(path: &String, el: Element) -> (r: Result<Rule, String>)
    ensures
        match r {
            Ok(rule) => rule_from(*path, el) == Ok::<Rule, Seq<char>>(rule),
            Err(e) => rule_from(*path, el) == Err::<Rule, Seq<char>>(e@),
        },
{
    let ghost original = el;
    let Element { args, group } = el;
    let id = match args {
        Some(Value::Text(id)) => id,
        Some(other) => {
            let mut m = path.clone();
            m.append(": `@rule`'s id is not a bare name: ");
            let shown = other.show();
            m.append(shown.as_str());
            return Err(m);
        },
        None => {
            let mut m = path.clone();
            m.append(": a `@rule` carries no id; the heading is prose and cannot serve as one");
            return Err(m);
        },
    };
    let group = match group {
        Some(g) => g,
        None => {
            let mut m = path.clone();
            m.append(": `@rule(");
            m.append(id.as_str());
            m.append(")` has no `{...}` group, so it declares neither a guard nor parameters");
            return Err(m);
        },
    };
    let found = find_param(&group, "guard");
    let guard = match found {
        Some(k) => match &group[k] {
            Entry::Pair(_, Value::Table(entries, _)) => Guard::from_map(entries, id.as_str()),
            _ => {
                return Err(String::new());
            },
        },
        None => {
            let mut m = path.clone();
            m.append(": `@rule(");
            m.append(id.as_str());
            m.append(
                ")` declares no `guard`; write `guard: { none: \"...\" }` when nothing holds it yet",
            );
            return Err(m);
        },
    };
    match guard {
        Ok(guard) => Ok(Rule { id, guard, path: path.clone(), group }),
        Err(e) => {
            let mut m = path.clone();
            m.append(": ");
            m.append(e.as_str());
            Err(m)
        },
    }
}

impl Writ {
    /// Every `@rule` this writ declares, in document order; the first
    /// entry it cannot read is an error.
    pub fn rules(self) -> (r: Result<Vec<Rule>, String>)
        ensures
            read_as(r, rules_from(self.path, self.elements@)),
    {
        let ghost me = self;
        let Writ { path, elements } = self;
        let ghost all = elements@;
        let mut rest = elements;
        let mut found: Vec<Rule> = Vec::new();
        proof {
            lemma_prepend_empty(rules_from(path, all));
        }
        while rest.len() > 0
            invariant
                me == self,
                path == me.path,
                all == me.elements@,
                rules_from(path, all) == prepend(found@, rules_from(path, rest@)),
            decreases rest.len(),
        {
            let ghost before = rest@;
            let el = rest.remove(0);
            let ghost this = el;
            assert(before.drop_first() =~= rest@);
            assert(rules_from(path, before) == match rule_from(path, this) {
                Ok(r) => prepend(seq![r], rules_from(path, rest@)),
                Err(e) => Err(e),
            });
            match read_rule(&path, el) {
                Ok(rule) => {
                    proof {
                        lemma_prepend_assoc(found@, seq![rule], rules_from(path, rest@));
                        assert(found@ + seq![rule] =~= found@.push(rule));
                    }
                    found.push(rule);
                },
                Err(e) => {
                    assert(rules_from(path, before) == Err::<Seq<Rule>, Seq<char>>(e@));
                    assert(rules_from(path, all) == Err::<Seq<Rule>, Seq<char>>(e@));
                    return Err(e);
                },
            }
        }
        assert(found@ + Seq::<Rule>::empty() =~= found@);
        Ok(found)
    }
}

/// Every rule of `writs`, in order, or the first entry that cannot be read.
pub open spec fn all_rules(writs: Seq<Writ>) -> Result<Seq<Rule>, Seq<char>>
    decreases writs.len(),
{
    if writs.len() == 0 {
        Ok(Seq::empty())
    } else {
        match rules_from(writs[0].path, writs[0].elements@) {
            Ok(rs) => prepend(rs, all_rules(writs.drop_first())),
            Err(e) => Err(e),
        }
    }
}

/// Every rule the writs declare, writ by writ.
pub fn declared_rules(writs: Vec<Writ>) -> (r: Result<Vec<Rule>, String>)
    ensures
        read_as(r, all_rules(writs@)),
{
    let ghost all = writs@;
    let mut rest = writs;
    let mut found: Vec<Rule> = Vec::new();
    proof {
        lemma_prepend_empty(all_rules(all));
    }
    while rest.len() > 0
        invariant
            all == writs@,
            all_rules(all) == prepend(found@, all_rules(rest@)),
        decreases rest.len(),
    {
        let ghost before = rest@;
        let w = rest.remove(0);
        let ghost this = w;
        assert(before.drop_first() =~= rest@);
        assert(all_rules(before) == match rules_from(this.path, this.elements@) {
            Ok(rs) => prepend(rs, all_rules(rest@)),
            Err(e) => Err(e),
        });
        match w.rules() {
            Ok(rs) => {
                proof {
                    lemma_prepend_assoc(found@, rs@, all_rules(rest@));
                }
                let mut rs = rs;
                found.append(&mut rs);
            },
            Err(e) => {
                assert(all_rules(before) == Err::<Seq<Rule>, Seq<char>>(e@));
                assert(all_rules(all) == Err::<Seq<Rule>, Seq<char>>(e@));
                return Err(e);
            },
        }
    }
    assert(found@ + Seq::<Rule>::empty() =~= found@);
    Ok(found)
}

/// Every rule across `writs` whose guard names `kind` as this tool's.
pub fn twrit_rules(writs: Vec<Writ>, kind: &str) -> (r: Result<Vec<Rule>, String>)
    ensures
        match r {
            Ok(v) => all_rules(writs@) matches Ok(rs) && v@ == rules_of_kind(rs, kind@),
            Err(e) => all_rules(writs@) == Err::<Seq<Rule>, Seq<char>>(e@),
        },
{
    let declared = match declared_rules(writs) {
        Ok(d) => d,
        Err(e) => {
            return Err(e);
        },
    };
    let ghost all = declared@;
    let mut rest = declared;
    let mut found: Vec<Rule> = Vec::new();
    let ghost mut taken: nat = 0;
    while rest.len() > 0
        invariant
            taken <= all.len(),
            rest@ == all.subrange(taken as int, all.len() as int),
            found@ == rules_of_kind(all.subrange(0, taken as int), kind@),
        decreases rest.len(),
    {
        let rule = rest.remove(0);
        proof {
            let next = all.subrange(0, taken + 1int);
            assert(next.drop_last() =~= all.subrange(0, taken as int));
            assert(next.last() == rule);
            assert(rest@ =~= all.subrange(taken + 1int, all.len() as int));
            reveal_with_fuel(Seq::filter, 1);
        }
        if rule.guard.is_twrit(kind) {
            found.push(rule);
        }
        proof {
            taken = taken + 1;
        }
    }
    assert(all.subrange(0, taken as int) =~= all);
    Ok(found)
}

/// A `key: [string, ...]` parameter read as its strings. `what` names the
/// declaration in a message.
pub fn strings(what: &str, key: &str, value: &Value) -> (r: Result<Vec<String>, String>)
    ensures
        read_as_texts(r, list_texts(what@, key@, *value)),
{
    let items = match value {
        Value::List(items, _) => items,
        _ => {
            let mut m = owned(what);
            m.append("'s `");
            m.append(key);
            m.append("` is not a list");
            return Err(m);
        },
    };
    let mut out: Vec<String> = Vec::new();
    let mut i: usize = 0;
    assert(items@.subrange(0, items@.len() as int) =~= items@);
    assert(texts(out@) =~= Seq::<Seq<char>>::empty());
    proof {
        lemma_prepend_empty(item_texts(what@, key@, items@));
    }
    while i < items.len()
        invariant
            i <= items.len(),
            list_texts(what@, key@, *value) == item_texts(what@, key@, items@),
            item_texts(what@, key@, items@) == prepend(
                texts(out@),
                item_texts(what@, key@, items@.subrange(i as int, items@.len() as int)),
            ),
        decreases items.len() - i,
    {
        proof {
            lemma_skip_step(items@, i as int);
        }
        match &items[i] {
            Value::Text(s) => {
                let ghost old_out = texts(out@);
                proof {
                    lemma_prepend_assoc(
                        texts(out@),
                        seq![s@],
                        item_texts(what@, key@, items@.subrange(i + 1, items@.len() as int)),
                    );
                }
                out.push(s.clone());
                assert(texts(out@) =~= old_out + seq![s@]);
            },
            other => {
                let mut m = owned(what);
                m.append("'s `");
                m.append(key);
                m.append("` holds a non-string entry: ");
                let shown = other.show();
                m.append(shown.as_str());
                assert(item_texts(what@, key@, items@.subrange(i as int, items@.len() as int))
                    == Err::<Seq<Seq<char>>, Seq<char>>(m@));
                return Err(m);
            },
        }
        i = i + 1;
    }
    assert(items@.subrange(items@.len() as int, items@.len() as int) =~= Seq::<Value>::empty());
    assert(texts(out@) + Seq::<Seq<char>>::empty() =~= texts(out@));
    Ok(out)
}

/// Reads a rule parameter's `{...}` as `key: [string, ...]` pairs.
///
/// Returns an error rather than skipping anything it cannot read: a rule
/// half-understood is worse than a rule that refuses to run, because the
/// half it dropped is exactly where a violation would hide.
pub fn string_list_map(entries: &Vec<(String, Value)>, what: &str) -> (r: Result<
    Vec<(String, Vec<String>)>,
    String,
>)
    ensures
        match r {
            Ok(v) => lists_from(what@, entries@) == Ok::<
                Seq<(Seq<char>, Seq<Seq<char>>)>,
                Seq<char>,
            >(v@.map_values(|p: (String, Vec<String>)| (p.0@, texts(p.1@)))),
            Err(e) => lists_from(what@, entries@) is Err && lists_from(what@, entries@)->Err_0
                == e@,
        },
{
    let ghost view = |p: (String, Vec<String>)| (p.0@, texts(p.1@));
    let mut out: Vec<(String, Vec<String>)> = Vec::new();
    let mut i: usize = 0;
    assert(entries@.subrange(0, entries@.len() as int) =~= entries@);
    assert(out@.map_values(view) =~= Seq::<(Seq<char>, Seq<Seq<char>>)>::empty());
    proof {
        lemma_prepend_empty(lists_from(what@, entries@));
    }
    while i < entries.len()
        invariant
            i <= entries.len(),
            view == (|p: (String, Vec<String>)| (p.0@, texts(p.1@))),
            lists_from(what@, entries@) == prepend(
                out@.map_values(view),
                lists_from(what@, entries@.subrange(i as int, entries@.len() as int)),
            ),
        decreases entries.len() - i,
    {
        proof {
            lemma_skip_step(entries@, i as int);
        }
        let key = &entries[i].0;
        let ghost old_out = out@.map_values(view);
        match strings(what, key.as_str(), &entries[i].1) {
            Ok(items) => {
                proof {
                    lemma_prepend_assoc(
                        out@.map_values(view),
                        seq![(key@, texts(items@))],
                        lists_from(what@, entries@.subrange(i + 1, entries@.len() as int)),
                    );
                }
                let ghost item_view = texts(items@);
                out.push((key.clone(), items));
                assert(out@.map_values(view) =~= old_out + seq![(key@, item_view)]);
            },
            Err(e) => {
                return Err(e);
            },
        }
        i = i + 1;
    }
    assert(entries@.subrange(entries@.len() as int, entries@.len() as int) =~= Seq::<
        (String, Value),
    >::empty());
    assert(out@.map_values(view) + Seq::<(Seq<char>, Seq<Seq<char>>)>::empty() =~= out@.map_values(
        view,
    ));
    Ok(out)
}

} // verus!
