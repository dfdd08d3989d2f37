//! The `layers` guard.
//!
//! Two checks over one layer declaration:
//!
//! 1. **Exhaustiveness** -- every workspace member matches exactly one
//!    layer. This is the half that catches a rule that was never written,
//!    rather than one that was broken.
//! 2. **Direction** -- a member's `[dependencies]` may only resolve to its
//!    own layer or below, and the lowest layer may depend on no member.
//!
//! `[dev-dependencies]` are exempt, because a crate reaching up to the
//! parser to test itself says nothing about how the shipped code is
//! arranged.

use vstd::prelude::*;

use crate::text::{
    chars_of, decimal, decimal_text, join, join_texts, lemma_push_text, matches_pattern, owned,
    pattern_matches, plural, plural_text, same_text, sort_unique, texts,
};
use crate::workspace::{dir_of, member_dir, Member, Workspace};
use crate::writ::{lists_from, param, string_list_map, Rule};
use crate::{outcome_is, Outcome};

verus! {

// ---------------------------------------------------------------------
// Layer numbers, read as `str::parse::<u32>` reads them

pub open spec fn empty_number_message() -> Seq<char> {
    "cannot parse integer from empty string"@
}

pub open spec fn invalid_digit_message() -> Seq<char> {
    "invalid digit found in string"@
}

pub open spec fn too_large_message() -> Seq<char> {
    "number too large to fit in target type"@
}

pub open spec fn is_digit(c: char) -> bool {
    '0' <= c && c <= '9'
}

pub open spec fn digit_value(c: char) -> nat {
    ((c as u32) - 48) as nat
}

/// The digits of `s` read left to right onto `acc`; the first character
/// that is not a digit, or the first digit that takes the value past
/// `u32::MAX`, is an error.
pub open spec fn read_digits(s: Seq<char>, acc: nat) -> Result<u32, Seq<char>>
    decreases s.len(),
{
    if s.len() == 0 {
        if acc <= u32::MAX {
            Ok(acc as u32)
        } else {
            Err(too_large_message())
        }
    } else if !is_digit(s[0]) {
        Err(invalid_digit_message())
    } else {
        let v = acc * 10 + digit_value(s[0]);
        if v > u32::MAX {
            Err(too_large_message())
        } else {
            read_digits(s.drop_first(), v)
        }
    }
}

/// `s.parse::<u32>()`, with the error as its message reads.
pub open spec fn parse_u32(s: Seq<char>) -> Result<u32, Seq<char>> {
    if s.len() == 0 {
        Err(empty_number_message())
    } else if (s[0] == '+' || s[0] == '-') && s.len() == 1 {
        Err(invalid_digit_message())
    } else if s[0] == '+' {
        read_digits(s.drop_first(), 0)
    } else {
        read_digits(s, 0)
    }
}

/// `s.parse::<u32>()`, with the error as its message reads.
pub fn parse_number(s: &str) -> (r: Result<u32, String>)
    ensures
        match r {
            Ok(n) => parse_u32(s@) == Ok::<u32, Seq<char>>(n),
            Err(e) => parse_u32(s@) == Err::<u32, Seq<char>>(e@),
        },
{
    let v = chars_of(s);
    if v.len() == 0 {
        return Err(owned("cannot parse integer from empty string"));
    }
    if (v[0] == '+' || v[0] == '-') && v.len() == 1 {
        return Err(owned("invalid digit found in string"));
    }
    let mut i: usize = if v[0] == '+' {
        1
    } else {
        0
    };
    let ghost digits = if v@[0] == '+' {
        v@.drop_first()
    } else {
        v@
    };
    assert(digits =~= v@.subrange(i as int, v@.len() as int));
    let mut acc: u32 = 0;
    while i < v.len()
        invariant
            i <= v.len(),
            v@ == s@,
            parse_u32(s@) == read_digits(v@.subrange(i as int, v@.len() as int), acc as nat),
        decreases v.len() - i,
    {
        let ghost tail = v@.subrange(i as int, v@.len() as int);
        assert(tail[0] == v@[i as int]);
        assert(tail.drop_first() =~= v@.subrange(i + 1, v@.len() as int));
        let c = v[i];
        if !('0' <= c && c <= '9') {
            return Err(owned("invalid digit found in string"));
        }
        let d = (c as u32) - 48;
        if acc > 429496729 || (acc == 429496729 && d > 5) {
            return Err(owned("number too large to fit in target type"));
        }
        acc = acc * 10 + d;
        i = i + 1;
    }
    Ok(acc)
}

// ---------------------------------------------------------------------
// The declaration

/// A layer declaration: `(layer, pattern)` in declaration order, and the
/// lowest layer.
pub struct LayersSpec {
    pub patterns: Seq<(u32, Seq<char>)>,
    pub floor: u32,
}

/// The layer a pattern list was declared under, lowest number first.
struct Layers {
    /// `(layer, pattern)`, kept in declaration order so a member matching
    /// two layers can name both.
    patterns: Vec<(u32, String)>,
    /// The lowest layer declared, which may depend on nothing.
    floor: u32,
}

impl View for Layers {
    type V = LayersSpec;

    closed spec fn view(&self) -> LayersSpec {
        LayersSpec {
            patterns: self.patterns@.map_values(|p: (u32, String)| (p.0, p.1@)),
            floor: self.floor,
        }
    }
}

pub open spec fn no_layers_message(rule: Rule) -> Seq<char> {
    rule.path@ + ": `@rule("@ + rule.id@ + ")` guards `layers` but declares no `layers:` parameter"@
}

pub open spec fn not_a_layer_message(key: Seq<char>, why: Seq<char>) -> Seq<char> {
    "`layers` key `"@ + key + "` is not a layer number: "@ + why
}

/// The patterns of each `layer: [pattern, ...]`, layer by layer; the first
/// key that is not a layer number is an error.
pub open spec fn layer_patterns(lists: Seq<(Seq<char>, Seq<Seq<char>>)>) -> Result<
    Seq<(u32, Seq<char>)>,
    Seq<char>,
>
    decreases lists.len(),
{
    if lists.len() == 0 {
        Ok(Seq::empty())
    } else {
        match parse_u32(lists[0].0) {
            Err(why) => Err(not_a_layer_message(lists[0].0, why)),
            Ok(layer) => match layer_patterns(lists.drop_first()) {
                Ok(rest) => Ok(lists[0].1.map_values(|g: Seq<char>| (layer, g)) + rest),
                Err(e) => Err(e),
            },
        }
    }
}

/// The lowest layer of a non-empty pattern list.
pub open spec fn lowest(patterns: Seq<(u32, Seq<char>)>) -> u32
    decreases patterns.len(),
{
    if patterns.len() <= 1 {
        patterns[0].0
    } else {
        let rest = lowest(patterns.drop_last());
        if patterns.last().0 < rest {
            patterns.last().0
        } else {
            rest
        }
    }
}

/// The layer declaration a rule makes, or why it makes none.
pub open spec fn layers_params(rule: Rule) -> Result<LayersSpec, Seq<char>> {
    match param(rule.group@, "layers"@) {
        None => Err(no_layers_message(rule)),
        Some(entries) => match lists_from("`layers`"@, entries@) {
            Err(e) => Err(e),
            Ok(lists) => match layer_patterns(lists) {
                Err(e) => Err(e),
                Ok(ps) => if ps.len() == 0 {
                    Err("`layers` declares no members"@)
                } else {
                    Ok(LayersSpec { patterns: ps, floor: lowest(ps) })
                },
            },
        },
    }
}

/// Every `(layer, pattern)` whose pattern matches `dir`, in declaration
/// order.
pub open spec fn layer_matches(patterns: Seq<(u32, Seq<char>)>, dir: Seq<char>) -> Seq<
    (u32, Seq<char>),
>
    decreases patterns.len(),
{
    if patterns.len() == 0 {
        Seq::empty()
    } else {
        let rest = layer_matches(patterns.drop_last(), dir);
        if pattern_matches(patterns.last().1, dir) {
            rest.push(patterns.last())
        } else {
            rest
        }
    }
}

/// A member's directory, or the empty text when it has none.
pub open spec fn dir_or_empty(m: Member) -> Seq<char> {
    match member_dir(m) {
        Some(d) => d,
        None => Seq::empty(),
    }
}

/// `layer 1 (`thing*`)`.
pub open spec fn layer_mention(m: (u32, Seq<char>)) -> Seq<char> {
    "layer "@ + decimal(m.0 as nat) + " (`"@ + m.1 + "`)"@
}

/// What a member matching other than exactly one layer is told.
pub open spec fn classification_finding(dir: Seq<char>, ms: Seq<(u32, Seq<char>)>) -> Seq<char> {
    if ms.len() == 0 {
        "unclassified member: "@ + dir + " matches no layer in `layers`"@
    } else {
        "ambiguous member: "@ + dir + " matches "@ + join(
            ms.map_values(|m: (u32, Seq<char>)| layer_mention(m)),
            " and "@,
        )
    }
}

/// Each member's name with the layer and directory of its one match, the
/// later member winning when two share a name.
pub open spec fn assignment(patterns: Seq<(u32, Seq<char>)>, members: Seq<Member>) -> Map<
    Seq<char>,
    (u32, Seq<char>),
>
    decreases members.len(),
{
    if members.len() == 0 {
        Map::empty()
    } else {
        let before = assignment(patterns, members.drop_last());
        let m = members.last();
        let dir = dir_or_empty(m);
        let ms = layer_matches(patterns, dir);
        if ms.len() == 1 {
            before.insert(m.name@, (ms[0].0, dir))
        } else {
            before
        }
    }
}

pub open spec fn upward_finding(
    pkg: Seq<char>,
    own: (u32, Seq<char>),
    dep: Seq<char>,
    theirs: (u32, Seq<char>),
) -> Seq<char> {
    "upward dependency: "@ + pkg + " (layer "@ + decimal(own.0 as nat) + ", "@ + own.1 + ") -> "@
        + dep + " (layer "@ + decimal(theirs.0 as nat) + ", "@ + theirs.1 + ")"@
}

pub open spec fn floor_finding(floor: u32, pkg: Seq<char>, dep: Seq<char>) -> Seq<char> {
    "layer "@ + decimal(floor as nat) + " depends on a workspace member: "@ + pkg + " -> "@ + dep
}

/// A member matching no layer, or more than one, and what it is told.
pub open spec fn misclassified(l: LayersSpec, m: Member, x: Seq<char>) -> bool {
    let dir = dir_or_empty(m);
    let ms = layer_matches(l.patterns, dir);
    ms.len() != 1 && x == classification_finding(dir, ms)
}

/// What the `j`th dependency of `m` is found doing wrong, if anything.
pub open spec fn dep_finding(
    l: LayersSpec,
    a: Map<Seq<char>, (u32, Seq<char>)>,
    m: Member,
    j: int,
    x: Seq<char>,
) -> bool {
    let dep = m.dependencies@[j];
    &&& dep.normal
    &&& a.contains_key(dep.name@)
    &&& {
        ||| (a[dep.name@].0 > a[m.name@].0 && x == upward_finding(
            m.name@,
            a[m.name@],
            dep.name@,
            a[dep.name@],
        ))
        ||| (a[m.name@].0 == l.floor && x == floor_finding(l.floor, m.name@, dep.name@))
    }
}

/// Whether `x` is something found wrong with the member `m`.
pub open spec fn member_finding(
    l: LayersSpec,
    a: Map<Seq<char>, (u32, Seq<char>)>,
    m: Member,
    x: Seq<char>,
) -> bool {
    ||| misclassified(l, m, x)
    ||| (a.contains_key(m.name@) && exists|j: int|
        0 <= j < m.dependencies@.len() && #[trigger] dep_finding(l, a, m, j, x))
}

/// Everything a layer declaration finds wrong with the members.
pub open spec fn layer_findings(l: LayersSpec, members: Seq<Member>) -> Set<Seq<char>> {
    Set::new(
        |x: Seq<char>|
            exists|i: int|
                0 <= i < members.len() && #[trigger] member_finding(
                    l,
                    assignment(l.patterns, members),
                    members[i],
                    x,
                ),
    )
}

/// What a `layers` rule finds in a workspace: how many members there are,
/// and its findings.
pub open spec fn layers_outcome(rule: Rule, ws: Workspace) -> Result<
    (Seq<char>, Set<Seq<char>>),
    Seq<char>,
> {
    match layers_params(rule) {
        Err(e) => Err(e),
        Ok(l) => match ws.plain {
            Err(e) => Err(e@),
            Ok(meta) => Ok(
                (plural_text(meta.members@.len(), "member"@), layer_findings(l, meta.members@)),
            ),
        },
    }
}

// ---------------------------------------------------------------------
// Running it

proof fn lemma_layer_patterns_step(lists: Seq<(Seq<char>, Seq<Seq<char>>)>, i: int)
    requires
        0 <= i < lists.len(),
    ensures
        lists.subrange(i, lists.len() as int).drop_first() == lists.subrange(i + 1, lists.len() as int),
        lists.subrange(i, lists.len() as int)[0] == lists[i],
{
    assert(lists.subrange(i, lists.len() as int).drop_first() =~= lists.subrange(i + 1, lists.len() as int));
}

pub open spec fn pattern_view(p: Seq<(u32, String)>) -> Seq<(u32, Seq<char>)> {
    p.map_values(|x: (u32, String)| (x.0, x.1@))
}

impl Layers {
    fn read(rule: &Rule) -> (r: Result<Layers, String>)
        ensures
            match r {
                Ok(l) => layers_params(*rule) == Ok::<LayersSpec, Seq<char>>(l@),
                Err(e) => layers_params(*rule) == Err::<LayersSpec, Seq<char>>(e@),
            },
    {
        let entries = match rule.map("layers") {
            Some(e) => e,
            None => {
                let mut m = rule.path.clone();
                m.append(": `@rule(");
                m.append(rule.id.as_str());
                m.append(")` guards `layers` but declares no `layers:` parameter");
                return Err(m);
            },
        };
        let lists = match string_list_map(entries, "`layers`") {
            Ok(l) => l,
            Err(e) => {
                return Err(e);
            },
        };
        let ghost lv = lists@.map_values(|p: (String, Vec<String>)| (p.0@, texts(p.1@)));
        let mut patterns: Vec<(u32, String)> = Vec::new();
        let mut i: usize = 0;
        assert(lv.subrange(0, lv.len() as int) =~= lv);
        assert(pattern_view(patterns@) =~= Seq::<(u32, Seq<char>)>::empty());
        proof {
            match layer_patterns(lv) {
                Ok(x) => {
                    assert(Seq::<(u32, Seq<char>)>::empty() + x =~= x);
                },
                Err(_) => {},
            }
        }
        while i < lists.len()
            invariant
                i <= lists.len(),
                lv == lists@.map_values(|p: (String, Vec<String>)| (p.0@, texts(p.1@))),
                param(rule.group@, "layers"@) == Some(*entries),
                lists_from("`layers`"@, entries@) == Ok::<Seq<(Seq<char>, Seq<Seq<char>>)>, Seq<char>>(lv),
                layer_patterns(lv) == crate::writ::prepend(
                    pattern_view(patterns@),
                    layer_patterns(lv.subrange(i as int, lv.len() as int)),
                ),
            decreases lists.len() - i,
        {
            proof {
                lemma_layer_patterns_step(lv, i as int);
            }
            let key = &lists[i].0;
            let globs = &lists[i].1;
            assert(lv[i as int] == (key@, texts(globs@)));
            let layer = match parse_number(key.as_str()) {
                Ok(n) => n,
                Err(why) => {
                    let mut m = owned("`layers` key `");
                    m.append(key.as_str());
                    m.append("` is not a layer number: ");
                    m.append(why.as_str());
                    return Err(m);
                },
            };
            let ghost before = pattern_view(patterns@);
            let mut k: usize = 0;
            while k < globs.len()
                invariant
                    k <= globs.len(),
                    pattern_view(patterns@) == before + texts(globs@).subrange(0, k as int).map_values(
                        |g: Seq<char>| (layer, g),
                    ),
                decreases globs.len() - k,
            {
                let ghost pv = pattern_view(patterns@);
                let g = globs[k].clone();
                let ghost gv = g@;
                patterns.push((layer, g));
                assert(pattern_view(patterns@) =~= pv.push((layer, gv)));
                assert(texts(globs@)[k as int] == gv);
                assert(texts(globs@).subrange(0, k + 1).map_values(|g: Seq<char>| (layer, g))
                    =~= texts(globs@).subrange(0, k as int).map_values(|g: Seq<char>| (layer, g)).push((layer, gv)));
                assert(pattern_view(patterns@) =~= before + texts(globs@).subrange(0, k + 1).map_values(
                    |g: Seq<char>| (layer, g),
                ));
                k = k + 1;
            }
            proof {
                assert(texts(globs@).subrange(0, globs.len() as int) =~= texts(globs@));
                let here = texts(globs@).map_values(|g: Seq<char>| (layer, g));
                match layer_patterns(lv.subrange(i + 1, lv.len() as int)) {
                    Ok(rest) => {
                        assert(before + (here + rest) =~= (before + here) + rest);
                    },
                    Err(_) => {},
                }
            }
            i = i + 1;
        }
        proof {
            assert(lv.subrange(lv.len() as int, lv.len() as int) =~= Seq::<(Seq<char>, Seq<Seq<char>>)>::empty());
            assert(pattern_view(patterns@) + Seq::<(u32, Seq<char>)>::empty() =~= pattern_view(patterns@));
        }
        if patterns.len() == 0 {
            return Err(owned("`layers` declares no members"));
        }
        let mut floor = patterns[0].0;
        let mut j: usize = 1;
        assert(pattern_view(patterns@).subrange(0, 1) =~= seq![pattern_view(patterns@)[0]]);
        while j < patterns.len()
            invariant
                1 <= j <= patterns.len(),
                floor == lowest(pattern_view(patterns@).subrange(0, j as int)),
            decreases patterns.len() - j,
        {
            assert(pattern_view(patterns@).subrange(0, j + 1).drop_last() =~= pattern_view(patterns@).subrange(0, j as int));
            if patterns[j].0 < floor {
                floor = patterns[j].0;
            }
            j = j + 1;
        }
        assert(pattern_view(patterns@).subrange(0, patterns.len() as int) =~= pattern_view(patterns@));
        Ok(Layers { patterns, floor })
    }

    /// Every layer whose pattern list matches `dir`.
    ///
    /// A pattern ending in `*` matches by prefix; every other pattern is
    /// exact. Returns all matches rather than the first, so that a member
    /// covered twice is reported as ambiguous instead of silently taking
    /// whichever layer happened to be declared first.
    fn matches(&self, dir: &str) -> (r: Vec<(u32, String)>)
        ensures
            pattern_view(r@) == layer_matches(self@.patterns, dir@),
    {
        let ghost ps = self@.patterns;
        let mut out: Vec<(u32, String)> = Vec::new();
        let mut i: usize = 0;
        assert(pattern_view(out@) =~= Seq::<(u32, Seq<char>)>::empty());
        while i < self.patterns.len()
            invariant
                i <= self.patterns.len(),
                ps == self@.patterns,
                ps.len() == self.patterns@.len(),
                pattern_view(out@) == layer_matches(ps.subrange(0, i as int), dir@),
            decreases self.patterns.len() - i,
        {
            assert(ps.subrange(0, i + 1).drop_last() =~= ps.subrange(0, i as int));
            assert(ps[i as int] == (self.patterns@[i as int].0, self.patterns@[i as int].1@));
            if matches_pattern(self.patterns[i].1.as_str(), dir) {
                let ghost before = pattern_view(out@);
                out.push((self.patterns[i].0, self.patterns[i].1.clone()));
                assert(pattern_view(out@) =~= before.push(ps[i as int]));
            }
            i = i + 1;
        }
        assert(ps.subrange(0, ps.len() as int) =~= ps);
        out
    }
}

/// Assigned members: name, layer, directory, each name once.
pub open spec fn represents(v: Seq<(String, u32, String)>, a: Map<Seq<char>, (u32, Seq<char>)>) -> bool {
    &&& forall|k: int| 0 <= k < v.len() ==> a.contains_key((#[trigger] v[k]).0@) && a[v[k].0@] == (v[k].1, v[k].2@)
    &&& forall|name: Seq<char>| #[trigger] a.contains_key(name) ==> exists|k: int| 0 <= k < v.len() && v[k].0@ == name
    &&& forall|k: int, m: int| 0 <= k < m < v.len() ==> (#[trigger] v[k]).0@ != (#[trigger] v[m]).0@
}

fn lookup(v: &Vec<(String, u32, String)>, name: &str) -> (r: Option<usize>)
    ensures
        match r {
            Some(k) => k < v@.len() && v@[k as int].0@ == name@,
            None => forall|k: int| 0 <= k < v@.len() ==> (#[trigger] v@[k]).0@ != name@,
        },
{
    let mut i: usize = 0;
    while i < v.len()
        invariant
            i <= v.len(),
            forall|k: int| 0 <= k < i ==> (#[trigger] v@[k]).0@ != name@,
        decreases v.len() - i,
    {
        if same_text(v[i].0.as_str(), name) {
            return Some(i);
        }
        i = i + 1;
    }
    None
}

/// Maps each workspace member's name to its layer and directory, adding a
/// finding for every member that matches no layer or more than one.
fn assign(members: &Vec<Member>, layers: &Layers, violations: &mut Vec<String>) -> (assigned: Vec<
    (String, u32, String),
>)
    ensures
        represents(assigned@, assignment(layers@.patterns, members@)),
        texts(final(violations)@).to_set() == texts(old(violations)@).to_set().union(
            Set::new(
                |x: Seq<char>|
                    exists|i: int|
                        0 <= i < members@.len() && misclassified(layers@, #[trigger] members@[i], x),
            ),
        ),
{
    let ghost l = layers@;
    let ghost base = texts(violations@).to_set();
    let mut assigned: Vec<(String, u32, String)> = Vec::new();
    let mut i: usize = 0;
    assert(base.union(Set::new(
        |x: Seq<char>| exists|k: int| 0 <= k < 0 && misclassified(l, #[trigger] members@[k], x),
    )) =~= base);
    assert(members@.subrange(0, 0) =~= Seq::<Member>::empty());
    while i < members.len()
        invariant
            i <= members.len(),
            l == layers@,
            base == texts(old(violations)@).to_set(),
            represents(assigned@, assignment(l.patterns, members@.subrange(0, i as int))),
            texts(violations@).to_set() == base.union(
                Set::new(
                    |x: Seq<char>|
                        exists|k: int| 0 <= k < i && misclassified(l, #[trigger] members@[k], x),
                ),
            ),
        decreases members.len() - i,
    {
        let member = &members[i];
        let ghost prefix = members@.subrange(0, i + 1);
        assert(prefix.drop_last() =~= members@.subrange(0, i as int));
        assert(prefix.last() == *member);
        let dir = match dir_of(member) {
            Some(d) => d,
            None => String::new(),
        };
        assert(dir@ == dir_or_empty(*member));
        let ms = layers.matches(dir.as_str());
        let ghost before_set = texts(violations@).to_set();
        let ghost a0 = assignment(l.patterns, members@.subrange(0, i as int));
        if ms.len() == 1 {
            let layer = ms[0].0;
            match lookup(&assigned, member.name.as_str()) {
                Some(k) => {
                    let ghost old_v = assigned@;
                    assigned.set(k, (member.name.clone(), layer, dir));
                    proof {
                        let a1 = a0.insert(member.name@, (layer, dir_or_empty(*member)));
                        assert forall|name: Seq<char>| #[trigger] a1.contains_key(name) implies exists|m: int|
                            0 <= m < assigned@.len() && assigned@[m].0@ == name by {
                            if name == member.name@ {
                                assert(assigned@[k as int].0@ == name);
                            } else {
                                let m = choose|m: int| 0 <= m < old_v.len() && old_v[m].0@ == name;
                                assert(assigned@[m].0@ == name);
                            }
                        }
                        assert forall|p: int, q: int| 0 <= p < q < assigned@.len() implies (#[trigger] assigned@[p]).0@ != (#[trigger] assigned@[q]).0@ by {
                            assert(old_v[p].0@ != old_v[q].0@);
                        }
                        assert forall|p: int| 0 <= p < assigned@.len() implies a1.contains_key((#[trigger] assigned@[p]).0@) && a1[assigned@[p].0@] == (assigned@[p].1, assigned@[p].2@) by {
                            if p != k {
                                assert(old_v[p].0@ != old_v[k as int].0@ || p == k);
                                assert(a0.contains_key(old_v[p].0@));
                            }
                        }
                    }
                },
                None => {
                    let ghost old_v = assigned@;
                    assigned.push((member.name.clone(), layer, dir));
                    proof {
                        let a1 = a0.insert(member.name@, (layer, dir_or_empty(*member)));
                        assert forall|name: Seq<char>| #[trigger] a1.contains_key(name) implies exists|m: int|
                            0 <= m < assigned@.len() && assigned@[m].0@ == name by {
                            if name == member.name@ {
                                assert(assigned@[old_v.len() as int].0@ == name);
                            } else {
                                let m = choose|m: int| 0 <= m < old_v.len() && old_v[m].0@ == name;
                                assert(assigned@[m].0@ == name);
                            }
                        }
                        assert forall|p: int, q: int| 0 <= p < q < assigned@.len() implies (#[trigger] assigned@[p]).0@ != (#[trigger] assigned@[q]).0@ by {
                            if q < old_v.len() {
                                assert(old_v[p].0@ != old_v[q].0@);
                            } else {
                                assert(old_v[p].0@ != member.name@);
                            }
                        }
                        assert forall|p: int| 0 <= p < assigned@.len() implies a1.contains_key((#[trigger] assigned@[p]).0@) && a1[assigned@[p].0@] == (assigned@[p].1, assigned@[p].2@) by {
                            if p < old_v.len() {
                                assert(a0.contains_key(old_v[p].0@));
                                assert(old_v[p].0@ != member.name@);
                            }
                        }
                    }
                },
            }
            assert(texts(violations@).to_set() =~= base.union(
                Set::new(
                    |x: Seq<char>|
                        exists|k: int| 0 <= k < i + 1 && misclassified(l, #[trigger] members@[k], x),
                ),
            )) by {
                assert forall|x: Seq<char>| !misclassified(l, members@[i as int], x) by {}
            }
        } else {
            let line = classification_text(&dir, &ms);
            let ghost old_v = violations@;
            let ghost lv = line@;
            violations.push(line);
            proof {
                lemma_push_text(old_v, violations@, line);
                assert(misclassified(l, members@[i as int], lv));
                assert(texts(violations@).to_set() =~= base.union(
                    Set::new(
                        |x: Seq<char>|
                            exists|k: int| 0 <= k < i + 1 && misclassified(l, #[trigger] members@[k], x),
                    ),
                )) by {
                    assert forall|x: Seq<char>| misclassified(l, members@[i as int], x) implies x == lv by {}
                }
            }
        }
        i = i + 1;
    }
    assert(members@.subrange(0, members.len() as int) =~= members@);
    assigned
}

/// What a member matching other than exactly one layer is told.
fn classification_text(dir: &String, ms: &Vec<(u32, String)>) -> (r: String)
    requires
        ms.len() != 1,
    ensures
        r@ == classification_finding(dir@, pattern_view(ms@)),
{
    if ms.len() == 0 {
        let mut m = owned("unclassified member: ");
        m.append(dir.as_str());
        m.append(" matches no layer in `layers`");
        return m;
    }
    let mut mentions: Vec<String> = Vec::new();
    let mut i: usize = 0;
    while i < ms.len()
        invariant
            i <= ms.len(),
            texts(mentions@) == pattern_view(ms@).subrange(0, i as int).map_values(
                |m: (u32, Seq<char>)| layer_mention(m),
            ),
        decreases ms.len() - i,
    {
        let mut t = owned("layer ");
        let n = decimal_text(ms[i].0 as usize);
        t.append(n.as_str());
        t.append(" (`");
        t.append(ms[i].1.as_str());
        t.append("`)");
        let ghost before = texts(mentions@);
        let ghost tv = t@;
        mentions.push(t);
        assert(texts(mentions@) =~= before.push(tv));
        assert(pattern_view(ms@).subrange(0, i + 1).map_values(|m: (u32, Seq<char>)| layer_mention(m))
            =~= pattern_view(ms@).subrange(0, i as int).map_values(|m: (u32, Seq<char>)| layer_mention(m)).push(
            layer_mention(pattern_view(ms@)[i as int]),
        ));
        i = i + 1;
    }
    assert(pattern_view(ms@).subrange(0, ms.len() as int) =~= pattern_view(ms@));
    let mut m = owned("ambiguous member: ");
    m.append(dir.as_str());
    m.append(" matches ");
    let joined = join_texts(&mentions, " and ");
    m.append(joined.as_str());
    m
}

/// The dependency findings of members `0..n`.
pub open spec fn dep_findings_upto(
    l: LayersSpec,
    a: Map<Seq<char>, (u32, Seq<char>)>,
    members: Seq<Member>,
    n: int,
) -> Set<Seq<char>> {
    Set::new(
        |x: Seq<char>|
            exists|i: int|
                0 <= i < n && a.contains_key(members[i].name@) && exists|j: int|
                    0 <= j < members[i].dependencies@.len() && #[trigger] dep_finding(
                        l,
                        a,
                        members[i],
                        j,
                        x,
                    ),
    )
}

/// Checks one `layers` rule against the workspace.
pub fn check(rule: &Rule, ws: &Workspace) -> (r: Result<Outcome, String>)
    ensures
        outcome_is(r, layers_outcome(*rule, *ws)),
{
    let layers = match Layers::read(rule) {
        Ok(l) => l,
        Err(e) => {
            return Err(e);
        },
    };
    let meta = match &ws.plain {
        Ok(m) => m,
        Err(e) => {
            return Err(e.clone());
        },
    };
    let members = &meta.members;
    let ghost l = layers@;
    let mut violations: Vec<String> = Vec::new();
    assert(texts(violations@).to_set() =~= Set::<Seq<char>>::empty());
    let assigned = assign(members, &layers, &mut violations);
    let ghost a = assignment(l.patterns, members@);
    let ghost classified = texts(violations@).to_set();
    assert(classified =~= Set::new(
        |x: Seq<char>| exists|i: int| 0 <= i < members@.len() && misclassified(l, #[trigger] members@[i], x),
    ));
    let mut i: usize = 0;
    assert(classified.union(dep_findings_upto(l, a, members@, 0)) =~= classified);
    while i < members.len()
        invariant
            i <= members.len(),
            l == layers@,
            a == assignment(l.patterns, members@),
            represents(assigned@, a),
            texts(violations@).to_set() == classified.union(dep_findings_upto(l, a, members@, i as int)),
        decreases members.len() - i,
    {
        let member = &members[i];
        let ghost before = texts(violations@).to_set();
        match lookup(&assigned, member.name.as_str()) {
            None => {
                proof {
                    assert(!a.contains_key(member.name@)) by {
                        if a.contains_key(member.name@) {
                            let k = choose|k: int| 0 <= k < assigned@.len() && assigned@[k].0@ == member.name@;
                            assert(assigned@[k].0@ != member.name@);
                        }
                    }
                    assert(dep_findings_upto(l, a, members@, i + 1) =~= dep_findings_upto(l, a, members@, i as int));
                }
            },
            Some(k) => {
                let own_layer = assigned[k].1;
                let own_dir = &assigned[k].2;
                assert(a.contains_key(member.name@) && a[member.name@] == (own_layer, own_dir@));
                let deps = &member.dependencies;
                let mut j: usize = 0;
                assert(before.union(Set::new(
                    |x: Seq<char>| exists|q: int| 0 <= q < 0 && #[trigger] dep_finding(l, a, *member, q, x),
                )) =~= before);
                while j < deps.len()
                    invariant
                        j <= deps.len(),
                        *deps == member.dependencies,
                        l == layers@,
                        represents(assigned@, a),
                        a.contains_key(member.name@),
                        a[member.name@] == (own_layer, own_dir@),
                        texts(violations@).to_set() == before.union(
                            Set::new(
                                |x: Seq<char>|
                                    exists|q: int| 0 <= q < j && #[trigger] dep_finding(l, a, *member, q, x),
                            ),
                        ),
                    decreases deps.len() - j,
                {
                    let dep = &deps[j];
                    let ghost mid = texts(violations@).to_set();
                    let ghost mut added: Set<Seq<char>> = Set::empty();
                    if dep.normal {
                        match lookup(&assigned, dep.name.as_str()) {
                            None => {
                                proof {
                                    assert(!a.contains_key(dep.name@)) by {
                                        if a.contains_key(dep.name@) {
                                            let m = choose|m: int| 0 <= m < assigned@.len() && assigned@[m].0@ == dep.name@;
                                            assert(assigned@[m].0@ != dep.name@);
                                        }
                                    }
                                }
                            },
                            Some(t) => {
                                let dep_layer = assigned[t].1;
                                assert(a.contains_key(dep.name@) && a[dep.name@] == (dep_layer, assigned@[t as int].2@));
                                if dep_layer > own_layer {
                                    let mut line = owned("upward dependency: ");
                                    line.append(member.name.as_str());
                                    line.append(" (layer ");
                                    let n = decimal_text(own_layer as usize);
                                    line.append(n.as_str());
                                    line.append(", ");
                                    line.append(own_dir.as_str());
                                    line.append(") -> ");
                                    line.append(dep.name.as_str());
                                    line.append(" (layer ");
                                    let n2 = decimal_text(dep_layer as usize);
                                    line.append(n2.as_str());
                                    line.append(", ");
                                    line.append(assigned[t].2.as_str());
                                    line.append(")");
                                    let ghost old_v = violations@;
                                    proof {
                                        added = added.insert(line@);
                                    }
                                    violations.push(line);
                                    proof {
                                        lemma_push_text(old_v, violations@, line);
                                    }
                                }
                                if own_layer == layers.floor {
                                    let mut line = owned("layer ");
                                    let n = decimal_text(layers.floor as usize);
                                    line.append(n.as_str());
                                    line.append(" depends on a workspace member: ");
                                    line.append(member.name.as_str());
                                    line.append(" -> ");
                                    line.append(dep.name.as_str());
                                    let ghost old_v = violations@;
                                    proof {
                                        added = added.insert(line@);
                                    }
                                    violations.push(line);
                                    proof {
                                        lemma_push_text(old_v, violations@, line);
                                    }
                                }
                            },
                        }
                    }
                    proof {
                        assert(added =~= Set::new(|x: Seq<char>| dep_finding(l, a, *member, j as int, x)));
                        assert(texts(violations@).to_set() =~= mid.union(added));
                        assert(texts(violations@).to_set() =~= before.union(
                            Set::new(
                                |x: Seq<char>|
                                    exists|q: int| 0 <= q < j + 1 && #[trigger] dep_finding(l, a, *member, q, x),
                            ),
                        ));
                    }
                    j = j + 1;
                }
                proof {
                    assert(dep_findings_upto(l, a, members@, i + 1) =~= dep_findings_upto(l, a, members@, i as int).union(
                        Set::new(
                            |x: Seq<char>|
                                exists|q: int| 0 <= q < deps.len() && #[trigger] dep_finding(l, a, *member, q, x),
                        ),
                    ));
                }
            },
        }
        i = i + 1;
    }
    proof {
        assert(classified.union(dep_findings_upto(l, a, members@, members@.len() as int)) =~= layer_findings(l, members@)) by {
            assert forall|x: Seq<char>| layer_findings(l, members@).contains(x) implies classified.union(
                dep_findings_upto(l, a, members@, members@.len() as int),
            ).contains(x) by {
                let i = choose|i: int| 0 <= i < members@.len() && #[trigger] member_finding(l, a, members@[i], x);
                if misclassified(l, members@[i], x) {
                    assert(classified.contains(x));
                } else {
                    let j = choose|j: int| 0 <= j < members@[i].dependencies@.len() && #[trigger] dep_finding(l, a, members@[i], j, x);
                    assert(dep_findings_upto(l, a, members@, members@.len() as int).contains(x));
                }
            }
            assert forall|x: Seq<char>| classified.union(
                dep_findings_upto(l, a, members@, members@.len() as int),
            ).contains(x) implies layer_findings(l, members@).contains(x) by {
                if classified.contains(x) {
                    let i = choose|i: int| 0 <= i < members@.len() && misclassified(l, #[trigger] members@[i], x);
                    assert(member_finding(l, a, members@[i], x));
                } else {
                    let i = choose|i: int| 0 <= i < members@.len() && a.contains_key(members@[i].name@) && exists|j: int|
                        0 <= j < members@[i].dependencies@.len() && #[trigger] dep_finding(l, a, members@[i], j, x);
                    assert(member_finding(l, a, members@[i], x));
                }
            }
        }
    }
    let violations = sort_unique(violations);
    let scope = plural(members.len(), "member");
    Ok(Outcome::checked(scope, violations))
}

} // verus!
