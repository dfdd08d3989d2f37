//! The workspace a guard judges, as `cargo metadata` and the crates'
//! sources describe it.
//!
//! Asking cargo and reading files happen before a check runs; what they
//! answered is handed in here as plain values, and a failure to answer is
//! handed in too, so that it becomes an error only for a rule that needed
//! the answer.

use vstd::prelude::*;

use crate::text::{contains, contains_text, slashed, sort_texts, sorted, texts, with_slashes, same_text};

verus! {

/// One dependency a member's manifest declares.
pub struct Dependency {
    pub name: String,
    /// Whether it is a normal dependency, as opposed to a dev- or build-
    /// dependency.
    pub normal: bool,
}

/// One workspace member.
pub struct Member {
    pub name: String,
    pub id: String,
    /// The directory of its manifest relative to the workspace root, as
    /// the platform writes it; `None` when it does not lie under the root.
    pub dir: Option<String>,
    pub dependencies: Vec<Dependency>,
}

/// Any package cargo knows of, member or not.
pub struct Package {
    pub id: String,
    pub name: String,
}

/// One edge of the resolved graph.
pub struct Edge {
    pub pkg: String,
    /// Whether one of the kinds it is depended on as is a normal
    /// dependency.
    pub normal: bool,
}

/// One node of the resolved graph.
pub struct Node {
    pub id: String,
    pub deps: Vec<Edge>,
}

/// What `cargo metadata` says about a workspace.
pub struct Metadata {
    pub members: Vec<Member>,
    pub packages: Vec<Package>,
    /// The graph cargo resolved, when it was asked for one.
    pub resolve: Option<Vec<Node>>,
}

/// One Rust source file of a member.
pub struct SourceFile {
    /// Its path relative to the workspace root, as the platform writes it.
    pub path: String,
    pub text: String,
}

/// The `.rs` files under one member's `src`, or why they could not be
/// read. A member without a `src` directory has no entry.
pub struct Sources {
    /// The member's directory, with `/` separators.
    pub dir: String,
    pub files: Result<Vec<SourceFile>, String>,
}

/// One file found walking a `placement` rule's directory.
pub struct Placed {
    /// The components of its path as the walk gave it.
    pub parts: Vec<String>,
    /// Its path relative to the rule's directory, when it lies under it.
    pub inside: Option<String>,
    /// Its path relative to the workspace root, when it lies under it.
    pub from_root: Option<String>,
}

/// The files under the directory one `placement` rule speaks about.
pub struct Tree {
    /// The path of the writ declaring the rule.
    pub writ: String,
    /// The rule's `within:`, as `Placement::read` gives it.
    pub within: Option<String>,
    /// The directory that names, resolved, as it is shown.
    pub shown: String,
    /// Whether that directory exists.
    pub exists: bool,
    /// Every file below it, in walk order, or the message the walk failed
    /// with.
    pub files: Result<Vec<Placed>, String>,
}

/// Everything a guard may ask of the workspace.
pub struct Workspace {
    /// `cargo metadata --no-deps`, or the message reading it failed with.
    pub plain: Result<Metadata, String>,
    /// `cargo metadata` with the resolved graph, or the message reading it
    /// failed with.
    pub resolved: Result<Metadata, String>,
    /// The sources of each member that has a `src` directory.
    pub sources: Vec<Sources>,
    /// The directory of each `placement` rule.
    pub trees: Vec<Tree>,
}

/// A member's directory with `/` separators, when it has one.
pub open spec fn member_dir(m: Member) -> Option<Seq<char>> {
    match m.dir {
        Some(d) => Some(slashed(d@)),
        None => None,
    }
}

/// A member's directory with `/` separators, when it has one.
pub fn dir_of(m: &Member) -> (r: Option<String>)
    ensures
        match r {
            Some(d) => member_dir(*m) == Some(d@),
            None => member_dir(*m) is None,
        },
{
    match &m.dir {
        Some(d) => Some(with_slashes(d.as_str())),
        None => None,
    }
}

/// Whether some member lives in `dir`.
pub open spec fn is_member_dir(members: Seq<Member>, dir: Seq<char>) -> bool {
    exists|k: int| 0 <= k < members.len() && member_dir(#[trigger] members[k]) == Some(dir)
}

/// Whether some member lives in `dir`.
pub fn has_member_dir(members: &Vec<Member>, dir: &str) -> (r: bool)
    ensures
        r == is_member_dir(members@, dir@),
{
    let mut i: usize = 0;
    while i < members.len()
        invariant
            i <= members.len(),
            forall|k: int| 0 <= k < i ==> member_dir(#[trigger] members@[k]) != Some(dir@),
        decreases members.len() - i,
    {
        match dir_of(&members[i]) {
            Some(d) => {
                if same_text(d.as_str(), dir) {
                    return true;
                }
            },
            None => {},
        }
        i = i + 1;
    }
    false
}

/// The sources of the member in `dir`: the first entry for it.
pub open spec fn sources_for(sources: Seq<Sources>, dir: Seq<char>) -> Option<Sources>
    decreases sources.len(),
{
    if sources.len() == 0 {
        None
    } else if sources[0].dir@ == dir {
        Some(sources[0])
    } else {
        sources_for(sources.drop_first(), dir)
    }
}

/// The files mentioning `needle`, by their `/`-separated paths, in the
/// order given.
pub open spec fn file_hits(files: Seq<SourceFile>, needle: Seq<char>) -> Seq<Seq<char>>
    decreases files.len(),
{
    if files.len() == 0 {
        Seq::empty()
    } else {
        let rest = file_hits(files.drop_last(), needle);
        if contains_text(files.last().text@, needle) {
            rest.push(slashed(files.last().path@))
        } else {
            rest
        }
    }
}

/// Files under `<dir>/src` mentioning `needle`, in the order they were
/// found, or the message reading them failed with.
pub open spec fn grep_result(sources: Seq<Sources>, dir: Seq<char>, needle: Seq<char>) -> Result<
    Seq<Seq<char>>,
    Seq<char>,
> {
    match sources_for(sources, dir) {
        None => Ok(Seq::empty()),
        Some(s) => match s.files {
            Ok(files) => Ok(file_hits(files@, needle)),
            Err(e) => Err(e@),
        },
    }
}

fn find_sources(sources: &Vec<Sources>, dir: &str) -> (r: Option<usize>)
    ensures
        match r {
            Some(k) => k < sources@.len() && sources_for(sources@, dir@) == Some(sources@[k as int]),
            None => sources_for(sources@, dir@) is None,
        },
{
    let mut i: usize = 0;
    assert(sources@.subrange(0, sources@.len() as int) =~= sources@);
    while i < sources.len()
        invariant
            i <= sources.len(),
            sources_for(sources@, dir@) == sources_for(
                sources@.subrange(i as int, sources@.len() as int),
                dir@,
            ),
        decreases sources.len() - i,
    {
        assert(sources@.subrange(i as int, sources@.len() as int).drop_first() =~= sources@.subrange(
            i + 1,
            sources@.len() as int,
        ));
        if same_text(sources[i].dir.as_str(), dir) {
            return Some(i);
        }
        i = i + 1;
    }
    None
}

/// Files under `<dir>/src` mentioning `needle`, named relative to the
/// workspace root, sorted.
///
/// Relative, because the hit goes straight into a violation line that is
/// read in a CI log or a diff. Text search, deliberately: a crate that has
/// no business touching the filesystem has no business writing `std::fs`
/// in a comment either.
pub fn grep_sources(sources: &Vec<Sources>, dir: &str, needle: &str) -> (r: Result<
    Vec<String>,
    String,
>)
    ensures
        match r {
            Ok(v) => grep_result(sources@, dir@, needle@) matches Ok(hits) && sorted(texts(v@))
                && texts(v@).to_multiset() == hits.to_multiset(),
            Err(e) => grep_result(sources@, dir@, needle@) == Err::<Seq<Seq<char>>, Seq<char>>(
                e@,
            ),
        },
{
    let k = match find_sources(sources, dir) {
        None => {
            let v: Vec<String> = Vec::new();
            assert(texts(v@) =~= Seq::<Seq<char>>::empty());
            return Ok(v);
        },
        Some(k) => k,
    };
    let files = match &sources[k].files {
        Ok(files) => files,
        Err(e) => {
            return Err(e.clone());
        },
    };
    let mut hits: Vec<String> = Vec::new();
    let mut i: usize = 0;
    while i < files.len()
        invariant
            i <= files.len(),
            texts(hits@) == file_hits(files@.subrange(0, i as int), needle@),
        decreases files.len() - i,
    {
        assert(files@.subrange(0, i + 1).drop_last() =~= files@.subrange(0, i as int));
        if contains(files[i].text.as_str(), needle) {
            let p = with_slashes(files[i].path.as_str());
            let ghost before = texts(hits@);
            let ghost pv = p@;
            hits.push(p);
            assert(texts(hits@) =~= before.push(pv));
        }
        i = i + 1;
    }
    assert(files@.subrange(0, files.len() as int) =~= files@);
    let sorted_hits = sort_texts(hits);
    Ok(sorted_hits)
}

} // verus!
