//! A capability's allowed locations, and everyone else held to not having
//! it.
//!
//! The difference from `pure` is the quantifier, and it is the whole
//! point. `pure` checks the crates it names: a crate that acquires an
//! ability without being named stays invisible to it. `door` names the
//! crates that *may* have the ability and checks every other member of
//! the workspace, so a new one arriving is what fails.

use vstd::prelude::*;

use crate::text::{
    lemma_push_text, lemma_same_elements, matches_pattern, pattern_matches, plural, plural_text,
    holds, sort_unique, texts, owned,
};
use crate::workspace::{
    dir_of, grep_result, grep_sources, has_member_dir, is_member_dir, member_dir, Member,
    Workspace,
};
use crate::writ::{list_texts, param, strings, Rule, Value};
use crate::{outcome_is, Outcome};

verus! {

/// A `door` declaration, read.
pub struct DoorSpec {
    /// The API names that constitute the ability, matched as substrings
    /// of a crate's own sources.
    pub names: Seq<Seq<char>>,
    /// Directories, relative to the workspace root, allowed to name them.
    pub allowed: Seq<Seq<char>>,
    /// Which members the rule speaks about at all; empty means every
    /// member.
    pub within: Seq<Seq<char>>,
}

/// What the capability is in source, and who is allowed it.
struct Door {
    names: Vec<String>,
    allowed: Vec<String>,
    within: Vec<String>,
}

impl View for Door {
    type V = DoorSpec;

    closed spec fn view(&self) -> DoorSpec {
        DoorSpec {
            names: texts(self.names@),
            allowed: texts(self.allowed@),
            within: texts(self.within@),
        }
    }
}

pub open spec fn no_door_message(rule: Rule) -> Seq<char> {
    rule.path@ + ": `@rule("@ + rule.id@ + ")` guards `door` but declares no `door:` parameter"@
}

pub open spec fn unknown_key_message(key: Seq<char>) -> Seq<char> {
    "`door` does not know the key `"@ + key + "`"@
}

/// Reads the `door: { ... }` entries in order; a later key of the same
/// name replaces an earlier one.
pub open spec fn door_fold(entries: Seq<(String, Value)>, acc: DoorSpec) -> Result<
    DoorSpec,
    Seq<char>,
>
    decreases entries.len(),
{
    if entries.len() == 0 {
        Ok(acc)
    } else {
        let key = entries[0].0@;
        let value = entries[0].1;
        if key == "names"@ {
            match list_texts("`door`"@, key, value) {
                Ok(l) => door_fold(entries.drop_first(), DoorSpec { names: l, ..acc }),
                Err(e) => Err(e),
            }
        } else if key == "allowed"@ {
            match list_texts("`door`"@, key, value) {
                Ok(l) => door_fold(entries.drop_first(), DoorSpec { allowed: l, ..acc }),
                Err(e) => Err(e),
            }
        } else if key == "within"@ {
            match list_texts("`door`"@, key, value) {
                Ok(l) => door_fold(entries.drop_first(), DoorSpec { within: l, ..acc }),
                Err(e) => Err(e),
            }
        } else {
            Err(unknown_key_message(key))
        }
    }
}

/// The `door` a rule declares, or why it declares none.
pub open spec fn door_params(rule: Rule) -> Result<DoorSpec, Seq<char>> {
    match param(rule.group@, "door"@) {
        None => Err(no_door_message(rule)),
        Some(entries) => match door_fold(
            entries@,
            DoorSpec { names: Seq::empty(), allowed: Seq::empty(), within: Seq::empty() },
        ) {
            Ok(d) => if d.names.len() == 0 {
                Err("`door` names no capability"@)
            } else {
                Ok(d)
            },
            Err(e) => Err(e),
        },
    }
}

/// Whether a door speaks about `dir` at all.
pub open spec fn door_covers(within: Seq<Seq<char>>, dir: Seq<char>) -> bool {
    within.len() == 0 || exists|k: int| 0 <= k < within.len() && pattern_matches(#[trigger] within[k], dir)
}

pub open spec fn finding(owner: Seq<char>, name: Seq<char>, file: Seq<char>) -> Seq<char> {
    owner + " is not a "@ + name + " door, and names it in "@ + file
}

pub open spec fn allowed_outsider(dir: Seq<char>) -> Seq<char> {
    "`door` allows "@ + dir + ", which is not a workspace member"@
}

/// One finding per file of `hits`.
pub open spec fn door_hits(owner: Seq<char>, name: Seq<char>, hits: Seq<Seq<char>>) -> Set<
    Seq<char>,
> {
    Set::new(|x: Seq<char>| exists|f: Seq<char>| hits.contains(f) && x == finding(owner, name, f))
}

/// The findings for one member in `dir`, name by name; the first name
/// whose sources cannot be read is an error.
pub open spec fn names_scan(
    owner: Seq<char>,
    names: Seq<Seq<char>>,
    sources: Seq<crate::workspace::Sources>,
    dir: Seq<char>,
) -> Result<Set<Seq<char>>, Seq<char>>
    decreases names.len(),
{
    if names.len() == 0 {
        Ok(Set::empty())
    } else {
        match grep_result(sources, dir, names[0]) {
            Err(e) => Err(e),
            Ok(h) => match names_scan(owner, names.drop_first(), sources, dir) {
                Err(e) => Err(e),
                Ok(s) => Ok(door_hits(owner, names[0], h).union(s)),
            },
        }
    }
}

/// Adds a checked member and its findings to what the rest found.
pub open spec fn tally(
    head: (nat, Set<Seq<char>>),
    rest: Result<(nat, Set<Seq<char>>), Seq<char>>,
) -> Result<(nat, Set<Seq<char>>), Seq<char>> {
    match rest {
        Ok(r) => Ok((head.0 + r.0, head.1.union(r.1))),
        Err(e) => Err(e),
    }
}

/// How many members the door covers, and what the covered members
/// outside `allowed` were found naming; the first member whose sources
/// cannot be read is an error.
pub open spec fn door_scan(
    d: DoorSpec,
    members: Seq<Member>,
    sources: Seq<crate::workspace::Sources>,
) -> Result<(nat, Set<Seq<char>>), Seq<char>>
    decreases members.len(),
{
    if members.len() == 0 {
        Ok((0, Set::empty()))
    } else {
        let rest = door_scan(d, members.drop_first(), sources);
        match member_dir(members[0]) {
            None => rest,
            Some(dir) => if !door_covers(d.within, dir) {
                rest
            } else if d.allowed.contains(dir) {
                tally((1, Set::empty()), rest)
            } else {
                match names_scan(members[0].name@, d.names, sources, dir) {
                    Err(e) => Err(e),
                    Ok(s) => tally((1, s), rest),
                }
            },
        }
    }
}

/// An allowed directory that is no workspace member.
pub open spec fn stale_allowed(d: DoorSpec, members: Seq<Member>) -> Set<Seq<char>> {
    Set::new(
        |x: Seq<char>|
            exists|k: int|
                0 <= k < d.allowed.len() && !is_member_dir(members, #[trigger] d.allowed[k]) && x
                    == allowed_outsider(d.allowed[k]),
    )
}

/// What a `door` rule finds in a workspace: the members it covered, and
/// its findings.
pub open spec fn door_outcome(rule: Rule, ws: Workspace) -> Result<
    (Seq<char>, Set<Seq<char>>),
    Seq<char>,
> {
    match door_params(rule) {
        Err(e) => Err(e),
        Ok(d) => match ws.plain {
            Err(e) => Err(e@),
            Ok(meta) => match door_scan(d, meta.members@, ws.sources@) {
                Err(e) => Err(e),
                Ok(r) => Ok(
                    (plural_text(r.0, "member"@), r.1.union(stale_allowed(d, meta.members@))),
                ),
            },
        },
    }
}

proof fn lemma_tally_assoc(
    a: (nat, Set<Seq<char>>),
    b: (nat, Set<Seq<char>>),
    r: Result<(nat, Set<Seq<char>>), Seq<char>>,
)
    ensures
        tally(a, tally(b, r)) == tally((a.0 + b.0, a.1.union(b.1)), r),
{
    match r {
        Ok(x) => {
            assert(a.1.union(b.1.union(x.1)) =~= a.1.union(b.1).union(x.1));
        },
        Err(_) => {},
    }
}

proof fn lemma_tally_zero(r: Result<(nat, Set<Seq<char>>), Seq<char>>)
    ensures
        tally((0, Set::empty()), r) == r,
{
    match r {
        Ok(x) => {
            assert(Set::<Seq<char>>::empty().union(x.1) =~= x.1);
        },
        Err(_) => {},
    }
}

impl Door {
    /// Whether this rule speaks about `dir` at all.
    fn covers(&self, dir: &str) -> (r: bool)
        ensures
            r == door_covers(self@.within, dir@),
    {
        if self.within.len() == 0 {
            return true;
        }
        let mut i: usize = 0;
        while i < self.within.len()
            invariant
                i <= self.within.len(),
                forall|k: int| 0 <= k < i ==> !pattern_matches(#[trigger] texts(self.within@)[k], dir@),
            decreases self.within.len() - i,
        {
            if matches_pattern(self.within[i].as_str(), dir) {
                assert(pattern_matches(texts(self.within@)[i as int], dir@));
                return true;
            }
            i = i + 1;
        }
        false
    }

    fn read(rule: &Rule) -> (r: Result<Door, String>)
        ensures
            match r {
                Ok(d) => door_params(*rule) == Ok::<DoorSpec, Seq<char>>(d@),
                Err(e) => door_params(*rule) == Err::<DoorSpec, Seq<char>>(e@),
            },
    {
        let entries = match rule.map("door") {
            Some(e) => e,
            None => {
                let mut m = rule.path.clone();
                m.append(": `@rule(");
                m.append(rule.id.as_str());
                m.append(")` guards `door` but declares no `door:` parameter");
                return Err(m);
            },
        };
        let ghost start = DoorSpec {
            names: Seq::empty(),
            allowed: Seq::empty(),
            within: Seq::empty(),
        };
        let mut names: Vec<String> = Vec::new();
        let mut allowed: Vec<String> = Vec::new();
        let mut within: Vec<String> = Vec::new();
        let mut i: usize = 0;
        assert(entries@.subrange(0, entries@.len() as int) =~= entries@);
        assert(texts(names@) =~= Seq::<Seq<char>>::empty());
        assert(texts(allowed@) =~= Seq::<Seq<char>>::empty());
        assert(texts(within@) =~= Seq::<Seq<char>>::empty());
        while i < entries.len()
            invariant
                i <= entries.len(),
                param(rule.group@, "door"@) == Some(*entries),
                start == (DoorSpec {
                    names: Seq::empty(),
                    allowed: Seq::empty(),
                    within: Seq::empty(),
                }),
                door_fold(entries@, start) == door_fold(
                    entries@.subrange(i as int, entries@.len() as int),
                    DoorSpec {
                        names: texts(names@),
                        allowed: texts(allowed@),
                        within: texts(within@),
                    },
                ),
            decreases entries.len() - i,
        {
            let key = &entries[i].0;
            let value = &entries[i].1;
            assert(entries@.subrange(i as int, entries@.len() as int).drop_first() =~= entries@.subrange(
                i + 1,
                entries@.len() as int,
            ));
            assert(entries@.subrange(i as int, entries@.len() as int)[0] == entries@[i as int]);
            if crate::text::same_text(key.as_str(), "names") {
                names = match strings("`door`", key.as_str(), value) {
                    Ok(l) => l,
                    Err(e) => {
                        return Err(e);
                    },
                };
            } else if crate::text::same_text(key.as_str(), "allowed") {
                allowed = match strings("`door`", key.as_str(), value) {
                    Ok(l) => l,
                    Err(e) => {
                        return Err(e);
                    },
                };
            } else if crate::text::same_text(key.as_str(), "within") {
                within = match strings("`door`", key.as_str(), value) {
                    Ok(l) => l,
                    Err(e) => {
                        return Err(e);
                    },
                };
            } else {
                let mut m = owned("`door` does not know the key `");
                m.append(key.as_str());
                m.append("`");
                return Err(m);
            }
            i = i + 1;
        }
        // An empty `allowed` is legal and says something: nobody may have
        // this. Not an error, unlike an empty `names`, which asks nothing.
        if names.len() == 0 {
            return Err(owned("`door` names no capability"));
        }
        Ok(Door { names, allowed, within })
    }
}

/// `found` joined to whatever a later step found, or that step's error.
pub open spec fn gather(
    found: Set<Seq<char>>,
    rest: Result<Set<Seq<char>>, Seq<char>>,
) -> Result<Set<Seq<char>>, Seq<char>> {
    match rest {
        Ok(r) => Ok(found.union(r)),
        Err(e) => Err(e),
    }
}

/// The findings for the member `owner` in `dir`, name by name.
fn scan_names(
    door: &Door,
    owner: &String,
    ws: &Workspace,
    dir: &String,
    violations: &mut Vec<String>,
) -> (r: Result<(), String>)
    ensures
        match r {
            Ok(()) => names_scan(owner@, door@.names, ws.sources@, dir@) matches Ok(s)
                && texts(final(violations)@).to_set() == texts(old(violations)@).to_set().union(s),
            Err(e) => names_scan(owner@, door@.names, ws.sources@, dir@) == Err::<
                Set<Seq<char>>,
                Seq<char>,
            >(e@),
        },
{
    let ghost names = door@.names;
    let ghost base = texts(violations@).to_set();
    let ghost mut found: Set<Seq<char>> = Set::empty();
    let mut j: usize = 0;
    assert(names.subrange(0, names.len() as int) =~= names);
    assert(base.union(Set::<Seq<char>>::empty()) =~= base);
    proof {
        match names_scan(owner@, names, ws.sources@, dir@) {
            Ok(x) => {
                assert(Set::<Seq<char>>::empty().union(x) =~= x);
            },
            Err(_) => {},
        }
    }
    while j < door.names.len()
        invariant
            j <= door.names.len(),
            names == door@.names,
            names.len() == door.names.len(),
            base == texts(old(violations)@).to_set(),
            texts(violations@).to_set() == base.union(found),
            names_scan(owner@, names, ws.sources@, dir@) == gather(
                found,
                names_scan(owner@, names.subrange(j as int, names.len() as int), ws.sources@, dir@),
            ),
        decreases door.names.len() - j,
    {
        let name = &door.names[j];
        let ghost tail = names.subrange(j as int, names.len() as int);
        assert(tail.drop_first() =~= names.subrange(j + 1, names.len() as int));
        assert(tail[0] == name@);
        let hits = match grep_sources(&ws.sources, dir.as_str(), name.as_str()) {
            Ok(h) => h,
            Err(e) => {
                return Err(e);
            },
        };
        let ghost h = grep_result(ws.sources@, dir@, name@)->Ok_0;
        proof {
            lemma_same_elements(texts(hits@), h);
        }
        let ghost before = texts(violations@).to_set();
        let mut k: usize = 0;
        assert(before.union(Set::<Seq<char>>::empty()) =~= before);
        assert(Set::new(
            |x: Seq<char>|
                exists|m: int| 0 <= m < 0 && x == finding(owner@, name@, #[trigger] texts(hits@)[m]),
        ) =~= Set::<Seq<char>>::empty());
        while k < hits.len()
            invariant
                k <= hits.len(),
                texts(violations@).to_set() == before.union(
                    Set::new(
                        |x: Seq<char>|
                            exists|m: int| 0 <= m < k && x == finding(owner@, name@, #[trigger] texts(hits@)[m]),
                    ),
                ),
            decreases hits.len() - k,
        {
            let mut line = owner.clone();
            line.append(" is not a ");
            line.append(name.as_str());
            line.append(" door, and names it in ");
            line.append(hits[k].as_str());
            let ghost old_v = violations@;
            let ghost lv = line@;
            violations.push(line);
            proof {
                lemma_push_text(old_v, violations@, line);
                assert(lv == finding(owner@, name@, texts(hits@)[k as int]));
                assert(texts(violations@).to_set() =~= before.union(
                    Set::new(
                        |x: Seq<char>|
                            exists|m: int| 0 <= m < k + 1 && x == finding(owner@, name@, #[trigger] texts(hits@)[m]),
                    ),
                ));
            }
            k = k + 1;
        }
        proof {
            let here = door_hits(owner@, name@, h);
            assert(Set::new(
                |x: Seq<char>|
                    exists|m: int| 0 <= m < hits.len() && x == finding(owner@, name@, #[trigger] texts(hits@)[m]),
            ) =~= here) by {
                assert forall|x: Seq<char>| here.contains(x) implies exists|m: int|
                    0 <= m < hits.len() && x == finding(owner@, name@, #[trigger] texts(hits@)[m]) by {
                    let f = choose|f: Seq<char>| h.contains(f) && x == finding(owner@, name@, f);
                    assert(texts(hits@).contains(f));
                    let m = choose|m: int| 0 <= m < texts(hits@).len() && texts(hits@)[m] == f;
                    assert(x == finding(owner@, name@, texts(hits@)[m]));
                }
                assert forall|x: Seq<char>| (exists|m: int|
                    0 <= m < hits.len() && x == finding(owner@, name@, #[trigger] texts(hits@)[m])) implies here.contains(x) by {
                    let m = choose|m: int| 0 <= m < hits.len() && x == finding(owner@, name@, #[trigger] texts(hits@)[m]);
                    assert(texts(hits@).contains(texts(hits@)[m]));
                    assert(h.contains(texts(hits@)[m]));
                }
            }
            assert(texts(violations@).to_set() =~= base.union(found.union(here)));
            match names_scan(owner@, tail.drop_first(), ws.sources@, dir@) {
                Ok(r2) => {
                    assert(found.union(here.union(r2)) =~= found.union(here).union(r2));
                },
                Err(_) => {},
            }
            found = found.union(here);
        }
        j = j + 1;
    }
    proof {
        let empty = names.subrange(names.len() as int, names.len() as int);
        assert(empty =~= Seq::<Seq<char>>::empty());
        assert(found.union(Set::<Seq<char>>::empty()) =~= found);
    }
    Ok(())
}

/// Checks one `door` rule against the workspace.
pub fn check(rule: &Rule, ws: &Workspace) -> (r: Result<Outcome, String>)
    ensures
        outcome_is(r, door_outcome(*rule, *ws)),
{
    let door = match Door::read(rule) {
        Ok(d) => d,
        Err(e) => {
            return Err(e);
        },
    };
    let meta = match &ws.plain {
        Ok(m) => m,
        Err(e) => {
            return Err(e.clone());
        },
    };
    let members = &meta.members;
    let ghost d = door@;
    let mut violations: Vec<String> = Vec::new();
    let mut checked: usize = 0;
    let mut i: usize = 0;
    assert(members@.subrange(0, members@.len() as int) =~= members@);
    assert(texts(violations@).to_set() =~= Set::<Seq<char>>::empty());
    proof {
        lemma_tally_zero(door_scan(d, members@, ws.sources@));
    }
    while i < members.len()
        invariant
            i <= members.len(),
            checked <= i,
            d == door@,
            ws.plain == Ok::<crate::workspace::Metadata, String>(*meta),
            *members == meta.members,
            door_params(*rule) == Ok::<DoorSpec, Seq<char>>(d),
            door_scan(d, members@, ws.sources@) == tally(
                (checked as nat, texts(violations@).to_set()),
                door_scan(d, members@.subrange(i as int, members@.len() as int), ws.sources@),
            ),
        decreases members.len() - i,
    {
        let ghost tail = members@.subrange(i as int, members@.len() as int);
        assert(tail.drop_first() =~= members@.subrange(i + 1, members@.len() as int));
        assert(tail[0] == members@[i as int]);
        let ghost rest = door_scan(d, tail.drop_first(), ws.sources@);
        let member = &members[i];
        match dir_of(member) {
            None => {},
            Some(dir) => {
                if door.covers(dir.as_str()) {
                    let ghost before = texts(violations@).to_set();
                    if holds(&door.allowed, dir.as_str()) {
                        proof {
                            lemma_tally_assoc(
                                (checked as nat, before),
                                (1, Set::empty()),
                                rest,
                            );
                            assert(before.union(Set::<Seq<char>>::empty()) =~= before);
                        }
                    } else {
                        match scan_names(&door, &member.name, ws, &dir, &mut violations) {
                            Ok(()) => {
                                proof {
                                    let s = names_scan(member.name@, d.names, ws.sources@, dir@)->Ok_0;
                                    lemma_tally_assoc((checked as nat, before), (1, s), rest);
                                }
                            },
                            Err(e) => {
                                return Err(e);
                            },
                        }
                    }
                    checked = checked + 1;
                }
            },
        }
        i = i + 1;
    }
    assert(members@.subrange(members@.len() as int, members@.len() as int) =~= Seq::<Member>::empty());
    assert(texts(violations@).to_set().union(Set::<Seq<char>>::empty()) =~= texts(violations@).to_set());

    let ghost scanned = texts(violations@).to_set();
    let mut j: usize = 0;
    while j < door.allowed.len()
        invariant
            j <= door.allowed.len(),
            d == door@,
            texts(violations@).to_set() == scanned.union(
                Set::new(
                    |x: Seq<char>|
                        exists|k: int|
                            0 <= k < j && !is_member_dir(members@, #[trigger] d.allowed[k]) && x
                                == allowed_outsider(d.allowed[k]),
                ),
            ),
        decreases door.allowed.len() - j,
    {
        let dir = &door.allowed[j];
        assert(d.allowed[j as int] == dir@);
        if !has_member_dir(members, dir.as_str()) {
            let mut line = owned("`door` allows ");
            line.append(dir.as_str());
            line.append(", which is not a workspace member");
            let ghost old_v = violations@;
            violations.push(line);
            proof {
                lemma_push_text(old_v, violations@, line);
            }
        }
        assert(texts(violations@).to_set() =~= scanned.union(
            Set::new(
                |x: Seq<char>|
                    exists|k: int|
                        0 <= k < j + 1 && !is_member_dir(members@, #[trigger] d.allowed[k]) && x
                            == allowed_outsider(d.allowed[k]),
            ),
        ));
        j = j + 1;
    }
    assert(Set::new(
        |x: Seq<char>|
            exists|k: int|
                0 <= k < door.allowed.len() && !is_member_dir(members@, #[trigger] d.allowed[k]) && x
                    == allowed_outsider(d.allowed[k]),
    ) =~= stale_allowed(d, members@));
    let violations = sort_unique(violations);
    let scope = plural(checked, "member");
    Ok(Outcome::checked(scope, violations))
}

} // verus!
