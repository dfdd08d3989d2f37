//! The `placement` guard: which files may exist under a directory.
//!
//! A directory declares the glob patterns of the files allowed under it,
//! and anything else found there is reported as stray. This replaces
//! ad-hoc shell checks (`find ... | grep -v ...`) with a declarative,
//! mechanical guard that fails loudly when an unlisted file appears.
//!
//! The patterns mean what the `ignore` crate's override globs mean. That
//! matcher is called, not rebuilt here; what it answers is named below and
//! the guard is proved against those names.

use vstd::prelude::*;

use ignore::overrides::{Override, OverrideBuilder};

use crate::text::{
    lemma_push_text, owned, plural, plural_text, same_text, sort_unique, strictly_sorted, texts,
};
use crate::workspace::{Placed, Tree, Workspace};
use crate::writ::{list_texts, param, strings, Rule, Value};
use crate::{outcome_is, Outcome};

verus! {

// ---------------------------------------------------------------------
// The `ignore` crate's override globs

#[verifier::external_type_specification]
#[verifier::external_body]
pub struct ExOverrideBuilder(ignore::overrides::OverrideBuilder);

#[verifier::external_type_specification]
#[verifier::external_body]
pub struct ExOverride(ignore::overrides::Override);

/// The root a builder was made with.
pub uninterp spec fn builder_root(b: OverrideBuilder) -> Seq<char>;

/// The globs added to a builder, in order.
pub uninterp spec fn builder_globs(b: OverrideBuilder) -> Seq<Seq<char>>;

/// The root of the builder a matcher was built from.
pub uninterp spec fn override_root(o: Override) -> Seq<char>;

/// The globs of the builder a matcher was built from, in order.
pub uninterp spec fn override_globs(o: Override) -> Seq<Seq<char>>;

/// Why the crate refuses to add `glob` to a builder, when it does: the
/// text of its error.
pub uninterp spec fn glob_refusal(glob: Seq<char>) -> Option<Seq<char>>;

/// Why the crate refuses to build a matcher from `globs`, when it does:
/// the text of its error.
pub uninterp spec fn build_refusal(globs: Seq<Seq<char>>) -> Option<Seq<char>>;

/// Whether the override matcher rooted at `root` with `globs` matches the
/// file `path` as a whitelisted one.
pub uninterp spec fn whitelisted(root: Seq<char>, globs: Seq<Seq<char>>, path: Seq<char>) -> bool;

/// Calls `OverrideBuilder::new(root)`: a builder holding no glob yet.
#[verifier::external_body]
fn override_builder(root: &str) -> (b: OverrideBuilder)
    ensures
        builder_root(b) == root@,
        builder_globs(b) == Seq::<Seq<char>>::empty(),
{
    OverrideBuilder::new(root)
}

/// Calls `OverrideBuilder::add(glob)`. The crate either adds the glob, or
/// fails before touching the builder with an error that depends on the
/// glob alone; the error is kept as its `Display` text.
#[verifier::external_body]
fn add_glob(b: &mut OverrideBuilder, glob: &str) -> (r: Result<(), String>)
    ensures
        builder_root(*final(b)) == builder_root(*old(b)),
        match glob_refusal(glob@) {
            None => r is Ok && builder_globs(*final(b)) == builder_globs(*old(b)).push(glob@),
            Some(e) => r is Err && r->Err_0@ == e && builder_globs(*final(b)) == builder_globs(
                *old(b),
            ),
        },
{
    match b.add(glob) {
        Ok(_) => Ok(()),
        Err(e) => Err(e.to_string()),
    }
}

/// Calls `OverrideBuilder::build()`: the matcher of the builder's root and
/// globs, or the error compiling those globs gives, as its `Display`
/// text.
#[verifier::external_body]
fn build_override(b: &OverrideBuilder) -> (r: Result<Override, String>)
    ensures
        match build_refusal(builder_globs(*b)) {
            None => r is Ok && override_root(r->Ok_0) == builder_root(*b) && override_globs(
                r->Ok_0,
            ) == builder_globs(*b),
            Some(e) => r is Err && r->Err_0@ == e,
        },
{
    match b.build() {
        Ok(o) => Ok(o),
        Err(e) => Err(e.to_string()),
    }
}

/// Calls `Override::matched(path, false)` and tells whether the answer is
/// a `Whitelist` match.
#[verifier::external_body]
fn allows(o: &Override, path: &str) -> (r: bool)
    ensures
        r == whitelisted(override_root(*o), override_globs(*o), path@),
{
    match o.matched(path, false) {
        ignore::Match::Whitelist(_) => true,
        _ => false,
    }
}

// ---------------------------------------------------------------------
// The declaration

/// A `placement` declaration, read.
pub struct PlacementSpec {
    /// The directory it speaks about, as written; `None` for the writ's
    /// own directory.
    pub within: Option<Seq<char>>,
    /// The glob patterns of the files allowed there.
    pub allow: Seq<Seq<char>>,
}

/// Where a `placement` rule looks, and what it allows there.
pub struct Placement {
    /// The directory, as written; `None` for the writ's own directory.
    pub within: Option<String>,
    pub allow: Vec<String>,
}

pub open spec fn within_view(w: Option<String>) -> Option<Seq<char>> {
    match w {
        Some(x) => Some(x@),
        None => None,
    }
}

impl View for Placement {
    type V = PlacementSpec;

    open spec fn view(&self) -> PlacementSpec {
        PlacementSpec { within: within_view(self.within), allow: texts(self.allow@) }
    }
}

pub open spec fn no_placement_message(rule: Rule) -> Seq<char> {
    rule.path@ + ": `@rule("@ + rule.id@
        + ")` guards `placement` but declares no `placement:` parameter"@
}

pub open spec fn within_not_text_message() -> Seq<char> {
    "`placement`'s `within` is not a string"@
}

pub open spec fn unknown_key_message(key: Seq<char>) -> Seq<char> {
    "`placement` does not know the key `"@ + key + "`"@
}

pub open spec fn no_pattern_message() -> Seq<char> {
    "`placement` names no allowed patterns"@
}

/// Reads the `placement: { ... }` entries in order; a later key of the
/// same name replaces an earlier one, and `within: "."` is the writ's own
/// directory.
pub open spec fn placement_fold(entries: Seq<(String, Value)>, acc: PlacementSpec) -> Result<
    PlacementSpec,
    Seq<char>,
>
    decreases entries.len(),
{
    if entries.len() == 0 {
        Ok(acc)
    } else {
        let key = entries[0].0@;
        let value = entries[0].1;
        if key == "within"@ {
            match value {
                Value::Text(s) => placement_fold(
                    entries.drop_first(),
                    PlacementSpec {
                        within: if s@ == "."@ {
                            None
                        } else {
                            Some(s@)
                        },
                        ..acc
                    },
                ),
                _ => Err(within_not_text_message()),
            }
        } else if key == "allow"@ {
            match list_texts("`placement`"@, key, value) {
                Ok(l) => placement_fold(entries.drop_first(), PlacementSpec { allow: l, ..acc }),
                Err(e) => Err(e),
            }
        } else {
            Err(unknown_key_message(key))
        }
    }
}

/// The `placement` a rule declares, or why it declares none.
pub open spec fn placement_params(rule: Rule) -> Result<PlacementSpec, Seq<char>> {
    match param(rule.group@, "placement"@) {
        None => Err(no_placement_message(rule)),
        Some(entries) => match placement_fold(
            entries@,
            PlacementSpec { within: None, allow: Seq::empty() },
        ) {
            Ok(p) => if p.allow.len() == 0 {
                Err(no_pattern_message())
            } else {
                Ok(p)
            },
            Err(e) => Err(e),
        },
    }
}

// ---------------------------------------------------------------------
// What the guard finds

/// The directory read for the rule declared in `writ` with `within`: the
/// first entry for it.
pub open spec fn tree_for(trees: Seq<Tree>, writ: Seq<char>, within: Option<Seq<char>>) -> Option<
    Tree,
>
    decreases trees.len(),
{
    if trees.len() == 0 {
        None
    } else if trees[0].writ@ == writ && within_view(trees[0].within) == within {
        Some(trees[0])
    } else {
        tree_for(trees.drop_first(), writ, within)
    }
}

pub open spec fn unread_tree_message(rule: Rule) -> Seq<char> {
    rule.path@ + ": `@rule("@ + rule.id@ + ")`'s directory was not read"@
}

pub open spec fn missing_dir_message(dir: Seq<char>) -> Seq<char> {
    "directory `"@ + dir + "` does not exist"@
}

pub open spec fn bad_glob_message(glob: Seq<char>, why: Seq<char>) -> Seq<char> {
    "invalid glob pattern `"@ + glob + "` in `placement`: "@ + why
}

pub open spec fn stray_message(path: Seq<char>) -> Seq<char> {
    path + ": unlisted file matches no allowed pattern"@
}

/// The first pattern the crate refuses, as the message that says so.
pub open spec fn glob_refused(patterns: Seq<Seq<char>>) -> Option<Seq<char>>
    decreases patterns.len(),
{
    if patterns.len() == 0 {
        None
    } else {
        match glob_refusal(patterns[0]) {
            Some(e) => Some(bad_glob_message(patterns[0], e)),
            None => glob_refused(patterns.drop_first()),
        }
    }
}

/// Whether a path passes through a `.git` directory, which is never
/// judged.
pub open spec fn in_git(parts: Seq<String>) -> bool {
    exists|k: int| 0 <= k < parts.len() && (#[trigger] parts[k])@ == ".git"@
}

/// Whether a file found is one the guard judges: outside `.git`, and
/// under the directory.
pub open spec fn counted(f: Placed) -> bool {
    !in_git(f.parts@) && f.inside is Some
}

/// How a file is named in a finding: from the workspace root when it lies
/// under it, else from the directory.
pub open spec fn placed_path(f: Placed) -> Seq<char> {
    match f.from_root {
        Some(p) => p@,
        None => match f.inside {
            Some(p) => p@,
            None => Seq::empty(),
        },
    }
}

/// How many of `files` the guard judges, and the stray ones among them.
pub open spec fn placement_scan(root: Seq<char>, globs: Seq<Seq<char>>, files: Seq<Placed>) -> (
    nat,
    Set<Seq<char>>,
)
    decreases files.len(),
{
    if files.len() == 0 {
        (0, Set::empty())
    } else {
        let r = placement_scan(root, globs, files.drop_last());
        let f = files.last();
        if !counted(f) {
            r
        } else if whitelisted(root, globs, f.inside->Some_0@) {
            (r.0 + 1, r.1)
        } else {
            (r.0 + 1, r.1.insert(stray_message(placed_path(f))))
        }
    }
}

/// What a `placement` rule finds: the files it judged, and its findings.
pub open spec fn placement_outcome(rule: Rule, ws: Workspace) -> Result<
    (Seq<char>, Set<Seq<char>>),
    Seq<char>,
> {
    match placement_params(rule) {
        Err(e) => Err(e),
        Ok(p) => match tree_for(ws.trees@, rule.path@, p.within) {
            None => Err(unread_tree_message(rule)),
            Some(t) => if !t.exists {
                Ok((plural_text(0, "file"@), set![missing_dir_message(t.shown@)]))
            } else {
                match glob_refused(p.allow) {
                    Some(e) => Err(e),
                    None => match build_refusal(p.allow) {
                        Some(e) => Err(e),
                        None => match t.files {
                            Err(e) => Err(e@),
                            Ok(files) => {
                                let s = placement_scan(t.shown@, p.allow, files@);
                                Ok((plural_text(s.0, "file"@), s.1))
                            },
                        },
                    },
                }
            },
        },
    }
}

// ---------------------------------------------------------------------
// Running it

impl Placement {
    /// The `placement` declaration of `rule`, or why it has none.
    pub fn read(rule: &Rule) -> (r: Result<Placement, String>)
        ensures
            match r {
                Ok(p) => placement_params(*rule) == Ok::<PlacementSpec, Seq<char>>(p@),
                Err(e) => placement_params(*rule) == Err::<PlacementSpec, Seq<char>>(e@),
            },
    {
        let entries = match rule.map("placement") {
            Some(e) => e,
            None => {
                let mut m = rule.path.clone();
                m.append(": `@rule(");
                m.append(rule.id.as_str());
                m.append(")` guards `placement` but declares no `placement:` parameter");
                return Err(m);
            },
        };
        let ghost start = PlacementSpec { within: None, allow: Seq::empty() };
        let mut within: Option<String> = None;
        let mut allow: Vec<String> = Vec::new();
        let mut i: usize = 0;
        assert(entries@.subrange(0, entries@.len() as int) =~= entries@);
        assert(texts(allow@) =~= Seq::<Seq<char>>::empty());
        while i < entries.len()
            invariant
                i <= entries.len(),
                param(rule.group@, "placement"@) == Some(*entries),
                start == (PlacementSpec { within: None, allow: Seq::empty() }),
                placement_fold(entries@, start) == placement_fold(
                    entries@.subrange(i as int, entries@.len() as int),
                    PlacementSpec { within: within_view(within), allow: texts(allow@) },
                ),
            decreases entries.len() - i,
        {
            let key = &entries[i].0;
            let value = &entries[i].1;
            assert(entries@.subrange(i as int, entries@.len() as int).drop_first()
                =~= entries@.subrange(i + 1, entries@.len() as int));
            assert(entries@.subrange(i as int, entries@.len() as int)[0] == entries@[i as int]);
            if same_text(key.as_str(), "within") {
                match value {
                    Value::Text(s) => {
                        if same_text(s.as_str(), ".") {
                            within = None;
                        } else {
                            within = Some(s.clone());
                        }
                    },
                    _ => {
                        return Err(owned("`placement`'s `within` is not a string"));
                    },
                }
            } else if same_text(key.as_str(), "allow") {
                allow = match strings("`placement`", key.as_str(), value) {
                    Ok(l) => l,
                    Err(e) => {
                        return Err(e);
                    },
                };
            } else {
                let mut m = owned("`placement` does not know the key `");
                m.append(key.as_str());
                m.append("`");
                return Err(m);
            }
            i = i + 1;
        }
        if allow.len() == 0 {
            return Err(owned("`placement` names no allowed patterns"));
        }
        Ok(Placement { within, allow })
    }
}

fn same_within(a: &Option<String>, b: &Option<String>) -> (r: bool)
    ensures
        r == (within_view(*a) == within_view(*b)),
{
    match (a, b) {
        (Some(x), Some(y)) => same_text(x.as_str(), y.as_str()),
        (None, None) => true,
        _ => false,
    }
}

fn find_tree(trees: &Vec<Tree>, writ: &str, within: &Option<String>) -> (r: Option<usize>)
    ensures
        match r {
            Some(k) => k < trees@.len() && tree_for(trees@, writ@, within_view(*within)) == Some(
                trees@[k as int],
            ),
            None => tree_for(trees@, writ@, within_view(*within)) is None,
        },
{
    let mut i: usize = 0;
    assert(trees@.subrange(0, trees@.len() as int) =~= trees@);
    while i < trees.len()
        invariant
            i <= trees.len(),
            tree_for(trees@, writ@, within_view(*within)) == tree_for(
                trees@.subrange(i as int, trees@.len() as int),
                writ@,
                within_view(*within),
            ),
        decreases trees.len() - i,
    {
        assert(trees@.subrange(i as int, trees@.len() as int).drop_first() =~= trees@.subrange(
            i + 1,
            trees@.len() as int,
        ));
        if same_text(trees[i].writ.as_str(), writ) && same_within(&trees[i].within, within) {
            return Some(i);
        }
        i = i + 1;
    }
    None
}

fn in_git_dir(parts: &Vec<String>) -> (r: bool)
    ensures
        r == in_git(parts@),
{
    let mut k: usize = 0;
    while k < parts.len()
        invariant
            k <= parts.len(),
            forall|m: int| 0 <= m < k ==> (#[trigger] parts@[m])@ != ".git"@,
        decreases parts.len() - k,
    {
        if same_text(parts[k].as_str(), ".git") {
            return true;
        }
        k = k + 1;
    }
    false
}

/// Adds every pattern to a fresh builder rooted at `root`, stopping at the
/// first the crate refuses.
fn builder_of(root: &str, patterns: &Vec<String>) -> (r: Result<OverrideBuilder, String>)
    ensures
        match r {
            Ok(b) => glob_refused(texts(patterns@)) is None && builder_root(b) == root@
                && builder_globs(b) == texts(patterns@),
            Err(e) => glob_refused(texts(patterns@)) == Some(e@),
        },
{
    let ghost all = texts(patterns@);
    let mut b = override_builder(root);
    let mut i: usize = 0;
    assert(all.subrange(0, all.len() as int) =~= all);
    assert(all.subrange(0, 0) =~= Seq::<Seq<char>>::empty());
    while i < patterns.len()
        invariant
            i <= patterns.len(),
            all == texts(patterns@),
            builder_root(b) == root@,
            builder_globs(b) == all.subrange(0, i as int),
            glob_refused(all) == glob_refused(all.subrange(i as int, all.len() as int)),
        decreases patterns.len() - i,
    {
        let p = &patterns[i];
        assert(all.subrange(i as int, all.len() as int).drop_first() =~= all.subrange(
            i + 1,
            all.len() as int,
        ));
        assert(all.subrange(i as int, all.len() as int)[0] == p@);
        match add_glob(&mut b, p.as_str()) {
            Ok(()) => {},
            Err(e) => {
                let mut m = owned("invalid glob pattern `");
                m.append(p.as_str());
                m.append("` in `placement`: ");
                m.append(e.as_str());
                return Err(m);
            },
        }
        assert(all.subrange(0, i + 1) =~= all.subrange(0, i as int).push(p@));
        i = i + 1;
    }
    assert(all.subrange(all.len() as int, all.len() as int) =~= Seq::<Seq<char>>::empty());
    Ok(b)
}

/// Checks one `placement` rule against the directory read for it.
pub fn check(rule: &Rule, ws: &Workspace) -> (r: Result<Outcome, String>)
    ensures
        outcome_is(r, placement_outcome(*rule, *ws)),
{
    let p = match Placement::read(rule) {
        Ok(p) => p,
        Err(e) => {
            return Err(e);
        },
    };
    let k = match find_tree(&ws.trees, rule.path.as_str(), &p.within) {
        Some(k) => k,
        None => {
            let mut m = rule.path.clone();
            m.append(": `@rule(");
            m.append(rule.id.as_str());
            m.append(")`'s directory was not read");
            return Err(m);
        },
    };
    let t = &ws.trees[k];
    if !t.exists {
        let mut m = owned("directory `");
        m.append(t.shown.as_str());
        m.append("` does not exist");
        let ghost mv = m@;
        let v = vec![m];
        assert(texts(v@) =~= seq![mv]);
        assert(seq![mv].to_set() =~= set![mv]) by {
            assert forall|x: Seq<char>| seq![mv].to_set().contains(x) <==> set![mv].contains(x) by {
                if x == mv {
                    assert(seq![mv][0] == x);
                }
            }
        }
        assert(strictly_sorted(texts(v@)));
        return Ok(Outcome::checked(plural(0, "file"), v));
    }
    let b = match builder_of(t.shown.as_str(), &p.allow) {
        Ok(b) => b,
        Err(e) => {
            return Err(e);
        },
    };
    let o = match build_override(&b) {
        Ok(o) => o,
        Err(e) => {
            return Err(e);
        },
    };
    let files = match &t.files {
        Ok(f) => f,
        Err(e) => {
            return Err(e.clone());
        },
    };
    let ghost root = t.shown@;
    let ghost globs = p@.allow;
    let mut violations: Vec<String> = Vec::new();
    let mut scanned: usize = 0;
    let mut i: usize = 0;
    assert(files@.subrange(0, 0) =~= Seq::<Placed>::empty());
    assert(texts(violations@).to_set() =~= Set::<Seq<char>>::empty());
    while i < files.len()
        invariant
            i <= files.len(),
            scanned <= i,
            override_root(o) == root,
            override_globs(o) == globs,
            (scanned as nat, texts(violations@).to_set()) == placement_scan(
                root,
                globs,
                files@.subrange(0, i as int),
            ),
        decreases files.len() - i,
    {
        let f = &files[i];
        assert(files@.subrange(0, i + 1).drop_last() =~= files@.subrange(0, i as int));
        assert(files@.subrange(0, i + 1).last() == *f);
        if !in_git_dir(&f.parts) {
            match &f.inside {
                Some(inside) => {
                    scanned = scanned + 1;
                    if !allows(&o, inside.as_str()) {
                        let shown = match &f.from_root {
                            Some(x) => x.clone(),
                            None => inside.clone(),
                        };
                        let mut line = shown;
                        line.append(": unlisted file matches no allowed pattern");
                        let ghost old_v = violations@;
                        violations.push(line);
                        proof {
                            lemma_push_text(old_v, violations@, line);
                        }
                    }
                },
                None => {},
            }
        }
        i = i + 1;
    }
    assert(files@.subrange(0, files.len() as int) =~= files@);
    let violations = sort_unique(violations);
    Ok(Outcome::checked(plural(scanned, "file"), violations))
}

} // verus!
