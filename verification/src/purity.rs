//! The `pure` guard: crates that may not reach the outside world.
//!
//! Two halves, because there are two ways to acquire the ability:
//!
//! 1. **`allow-external`** -- every external crate in the dependency
//!    closure is named there. Something new cannot arrive without a
//!    decision, which is the property.
//! 2. **`forbid`** -- none of the named paths appears in the crate's
//!    source, so it cannot be done bare-handed either.
//!
//! Neither name nor path is written here. Which crates, and which paths,
//! are `pure` data in the writ.

use vstd::prelude::*;

use crate::text::{
    holds, lemma_push_text, lemma_same_elements, owned, plural, plural_text, same_text,
    sort_unique, texts,
};
use crate::workspace::{
    dir_of, grep_result, grep_sources, member_dir, Member, Metadata, Node, Package, Sources,
    Workspace,
};
use crate::writ::{list_texts, param, strings, Rule, Value};
use crate::{outcome_is, Outcome};

verus! {

// ---------------------------------------------------------------------
// The declaration

/// A `pure` declaration, read.
pub struct PureSpec {
    /// Directory paths, relative to the workspace root.
    pub crates: Seq<Seq<char>>,
    pub allow_external: Seq<Seq<char>>,
    pub forbid: Seq<Seq<char>>,
}

/// One `pure` declaration.
struct Pure {
    crates: Vec<String>,
    allow_external: Vec<String>,
    forbid: Vec<String>,
}

impl View for Pure {
    type V = PureSpec;

    closed spec fn view(&self) -> PureSpec {
        PureSpec {
            crates: texts(self.crates@),
            allow_external: texts(self.allow_external@),
            forbid: texts(self.forbid@),
        }
    }
}

pub open spec fn no_pure_message(rule: Rule) -> Seq<char> {
    rule.path@ + ": `@rule("@ + rule.id@ + ")` guards `pure` but declares no `pure:` parameter"@
}

pub open spec fn unknown_key_message(key: Seq<char>) -> Seq<char> {
    "`pure` does not know the key `"@ + key + "`"@
}

/// Reads the `pure: { ... }` entries in order; a later key of the same
/// name replaces an earlier one.
pub open spec fn pure_fold(entries: Seq<(String, Value)>, acc: PureSpec) -> Result<
    PureSpec,
    Seq<char>,
>
    decreases entries.len(),
{
    if entries.len() == 0 {
        Ok(acc)
    } else {
        let key = entries[0].0@;
        let value = entries[0].1;
        if key == "crates"@ {
            match list_texts("`pure`"@, key, value) {
                Ok(l) => pure_fold(entries.drop_first(), PureSpec { crates: l, ..acc }),
                Err(e) => Err(e),
            }
        } else if key == "forbid"@ {
            match list_texts("`pure`"@, key, value) {
                Ok(l) => pure_fold(entries.drop_first(), PureSpec { forbid: l, ..acc }),
                Err(e) => Err(e),
            }
        } else if key == "allow-external"@ {
            match list_texts("`pure`"@, key, value) {
                Ok(l) => pure_fold(entries.drop_first(), PureSpec { allow_external: l, ..acc }),
                Err(e) => Err(e),
            }
        } else {
            Err(unknown_key_message(key))
        }
    }
}

/// The `pure` a rule declares, or why it declares none.
pub open spec fn pure_params(rule: Rule) -> Result<PureSpec, Seq<char>> {
    match param(rule.group@, "pure"@) {
        None => Err(no_pure_message(rule)),
        Some(entries) => match pure_fold(
            entries@,
            PureSpec { crates: Seq::empty(), allow_external: Seq::empty(), forbid: Seq::empty() },
        ) {
            Ok(p) => if p.crates.len() == 0 {
                Err("`pure` names no crates"@)
            } else {
                Ok(p)
            },
            Err(e) => Err(e),
        },
    }
}

// ---------------------------------------------------------------------
// The resolved graph

/// The name of the first package with id `id`.
pub open spec fn name_of(packages: Seq<Package>, id: Seq<char>) -> Option<Seq<char>>
    decreases packages.len(),
{
    if packages.len() == 0 {
        None
    } else if packages[0].id@ == id {
        Some(packages[0].name@)
    } else {
        name_of(packages.drop_first(), id)
    }
}

/// The position of the first node with id `id`.
pub open spec fn node_index(nodes: Seq<Node>, id: Seq<char>) -> Option<int>
    decreases nodes.len(),
{
    if nodes.len() == 0 {
        None
    } else if nodes[0].id@ == id {
        Some(0)
    } else {
        match node_index(nodes.drop_first(), id) {
            Some(k) => Some(k + 1),
            None => None,
        }
    }
}

/// The `q`th dependency of node `i` is a normal one, on a package cargo
/// names, whose node is `j`.
pub open spec fn dep_edge(meta: Metadata, nodes: Seq<Node>, i: int, q: int, j: int) -> bool {
    let d = nodes[i].deps@[q];
    &&& 0 <= q < nodes[i].deps@.len()
    &&& d.normal
    &&& name_of(meta.packages@, d.pkg@) is Some
    &&& node_index(nodes, d.pkg@) == Some(j)
}

/// Node `j` is a normal dependency of node `i`.
pub open spec fn step(meta: Metadata, nodes: Seq<Node>, i: int, j: int) -> bool {
    exists|q: int| #[trigger] dep_edge(meta, nodes, i, q, j)
}

/// `p` is a walk from `s` along normal dependencies.
pub open spec fn is_walk(meta: Metadata, nodes: Seq<Node>, s: int, p: Seq<int>) -> bool {
    &&& p.len() >= 1
    &&& p[0] == s
    &&& forall|k: int| 0 <= k < p.len() - 1 ==> #[trigger] step(meta, nodes, p[k], p[k + 1])
}

/// Node `j` is in the closure of node `s`.
pub open spec fn reaches(meta: Metadata, nodes: Seq<Node>, s: int, j: int) -> bool {
    exists|p: Seq<int>| #[trigger] is_walk(meta, nodes, s, p) && p.last() == j
}

/// Whether `name` is a workspace member's name.
pub open spec fn is_member_name(members: Seq<Member>, name: Seq<char>) -> bool {
    exists|k: int| 0 <= k < members.len() && (#[trigger] members[k]).name@ == name
}

/// The name a node is reported by: its package's, or nothing.
pub open spec fn node_name(meta: Metadata, nodes: Seq<Node>, i: int) -> Seq<char> {
    match name_of(meta.packages@, nodes[i].id@) {
        Some(n) => n,
        None => Seq::empty(),
    }
}

pub open spec fn external_finding(dir: Seq<char>, from: Seq<char>, to: Seq<char>) -> Seq<char> {
    dir + " reaches an external crate not in `allow-external`: "@ + from + " -> "@ + to
}

/// The `q`th dependency of node `i` is an external crate named `n`.
pub open spec fn external_dep(meta: Metadata, nodes: Seq<Node>, i: int, q: int, n: Seq<char>) -> bool {
    let d = nodes[i].deps@[q];
    &&& 0 <= q < nodes[i].deps@.len()
    &&& d.normal
    &&& name_of(meta.packages@, d.pkg@) == Some(n)
    &&& !is_member_name(meta.members@, n)
}

/// What expanding node `i` reports about its `q`th dependency.
pub open spec fn dep_violation(
    meta: Metadata,
    nodes: Seq<Node>,
    dir: Seq<char>,
    allow: Seq<Seq<char>>,
    i: int,
    q: int,
    x: Seq<char>,
) -> bool {
    exists|n: Seq<char>|
        #[trigger] external_dep(meta, nodes, i, q, n) && !allow.contains(n) && x == external_finding(
            dir,
            node_name(meta, nodes, i),
            n,
        )
}

/// Whether expanding node `i` reaches the allowed external `n` through its
/// `q`th dependency.
pub open spec fn dep_reached(
    meta: Metadata,
    nodes: Seq<Node>,
    allow: Seq<Seq<char>>,
    i: int,
    q: int,
    n: Seq<char>,
) -> bool {
    external_dep(meta, nodes, i, q, n) && allow.contains(n)
}

/// What the closure of node `s` reports.
pub open spec fn closure_violations(
    meta: Metadata,
    nodes: Seq<Node>,
    dir: Seq<char>,
    allow: Seq<Seq<char>>,
    s: int,
) -> Set<Seq<char>> {
    Set::new(
        |x: Seq<char>|
            exists|i: int, q: int|
                0 <= i < nodes.len() && reaches(meta, nodes, s, i) && #[trigger] dep_violation(
                    meta,
                    nodes,
                    dir,
                    allow,
                    i,
                    q,
                    x,
                ),
    )
}

/// The allowed externals the closure of node `s` reaches.
pub open spec fn closure_reached(
    meta: Metadata,
    nodes: Seq<Node>,
    allow: Seq<Seq<char>>,
    s: int,
) -> Set<Seq<char>> {
    Set::new(
        |n: Seq<char>|
            exists|i: int, q: int|
                0 <= i < nodes.len() && reaches(meta, nodes, s, i) && #[trigger] dep_reached(
                    meta,
                    nodes,
                    allow,
                    i,
                    q,
                    n,
                ),
    )
}

// ---------------------------------------------------------------------
// Lemmas about the graph

proof fn lemma_node_index(nodes: Seq<Node>, id: Seq<char>)
    ensures
        match node_index(nodes, id) {
            Some(k) => 0 <= k < nodes.len() && nodes[k].id@ == id && forall|m: int|
                0 <= m < k ==> (#[trigger] nodes[m]).id@ != id,
            None => forall|m: int| 0 <= m < nodes.len() ==> (#[trigger] nodes[m]).id@ != id,
        },
    decreases nodes.len(),
{
    if nodes.len() > 0 {
        lemma_node_index(nodes.drop_first(), id);
        if nodes[0].id@ != id {
            match node_index(nodes.drop_first(), id) {
                Some(k) => {
                    assert forall|m: int| 0 <= m < k + 1 implies (#[trigger] nodes[m]).id@ != id by {
                        if m > 0 {
                            assert(nodes[m] == nodes.drop_first()[m - 1]);
                        }
                    }
                },
                None => {
                    assert forall|m: int| 0 <= m < nodes.len() implies (#[trigger] nodes[m]).id@ != id by {
                        if m > 0 {
                            assert(nodes[m] == nodes.drop_first()[m - 1]);
                        }
                    }
                },
            }
        }
    }
}

proof fn lemma_name_of(packages: Seq<Package>, id: Seq<char>)
    ensures
        match name_of(packages, id) {
            Some(n) => exists|k: int|
                0 <= k < packages.len() && (#[trigger] packages[k]).id@ == id && packages[k].name@ == n
                    && forall|m: int| 0 <= m < k ==> (#[trigger] packages[m]).id@ != id,
            None => forall|m: int| 0 <= m < packages.len() ==> (#[trigger] packages[m]).id@ != id,
        },
    decreases packages.len(),
{
    if packages.len() > 0 {
        lemma_name_of(packages.drop_first(), id);
        if packages[0].id@ == id {
            assert(packages[0].id@ == id);
        } else {
            match name_of(packages.drop_first(), id) {
                Some(n) => {
                    let k = choose|k: int|
                        0 <= k < packages.drop_first().len() && (#[trigger] packages.drop_first()[k]).id@ == id
                            && packages.drop_first()[k].name@ == n && forall|m: int|
                            0 <= m < k ==> (#[trigger] packages.drop_first()[m]).id@ != id;
                    assert(packages[k + 1] == packages.drop_first()[k]);
                    assert forall|m: int| 0 <= m < k + 1 implies (#[trigger] packages[m]).id@ != id by {
                        if m > 0 {
                            assert(packages[m] == packages.drop_first()[m - 1]);
                        }
                    }
                },
                None => {
                    assert forall|m: int| 0 <= m < packages.len() implies (#[trigger] packages[m]).id@ != id by {
                        if m > 0 {
                            assert(packages[m] == packages.drop_first()[m - 1]);
                        }
                    }
                },
            }
        }
    }
}

proof fn lemma_walk_extend(meta: Metadata, nodes: Seq<Node>, s: int, p: Seq<int>, j: int)
    requires
        is_walk(meta, nodes, s, p),
        step(meta, nodes, p.last(), j),
    ensures
        is_walk(meta, nodes, s, p.push(j)),
        p.push(j).last() == j,
{
    let p2 = p.push(j);
    assert forall|k: int| 0 <= k < p2.len() - 1 implies #[trigger] step(meta, nodes, p2[k], p2[k + 1]) by {
        if k < p.len() - 1 {
            assert(step(meta, nodes, p[k], p[k + 1]));
        }
    }
}

proof fn lemma_step_in_range(meta: Metadata, nodes: Seq<Node>, i: int, j: int)
    requires
        step(meta, nodes, i, j),
    ensures
        0 <= j < nodes.len(),
{
    let q = choose|q: int| #[trigger] dep_edge(meta, nodes, i, q, j);
    lemma_node_index(nodes, nodes[i].deps@[q].pkg@);
}

/// A set of nodes that holds `s` and every dependency of its members holds
/// every node `s` reaches.
proof fn lemma_closed_holds_reach(meta: Metadata, nodes: Seq<Node>, s: int, visited: Seq<bool>, j: int)
    requires
        visited.len() == nodes.len(),
        0 <= s < nodes.len(),
        visited[s],
        forall|a: int, b: int|
            0 <= a < nodes.len() && visited[a] && #[trigger] step(meta, nodes, a, b) ==> visited[b],
        reaches(meta, nodes, s, j),
    ensures
        0 <= j < nodes.len() && visited[j],
{
    let p = choose|p: Seq<int>| #[trigger] is_walk(meta, nodes, s, p) && p.last() == j;
    lemma_walk_visited(meta, nodes, s, visited, p, p.len() as int);
}

proof fn lemma_walk_visited(meta: Metadata, nodes: Seq<Node>, s: int, visited: Seq<bool>, p: Seq<int>, n: int)
    requires
        visited.len() == nodes.len(),
        0 <= s < nodes.len(),
        visited[s],
        forall|a: int, b: int|
            0 <= a < nodes.len() && visited[a] && #[trigger] step(meta, nodes, a, b) ==> visited[b],
        is_walk(meta, nodes, s, p),
        1 <= n <= p.len(),
    ensures
        0 <= p[n - 1] < nodes.len() && visited[p[n - 1]],
    decreases n,
{
    if n > 1 {
        lemma_walk_visited(meta, nodes, s, visited, p, n - 1);
        let k = n - 2;
        assert(step(meta, nodes, p[k], p[k + 1]));
        lemma_step_in_range(meta, nodes, p[k], p[k + 1]);
    }
}

/// How many nodes are not yet visited.
pub open spec fn unvisited(v: Seq<bool>) -> nat
    decreases v.len(),
{
    if v.len() == 0 {
        0
    } else {
        unvisited(v.drop_last()) + if v.last() {
            0nat
        } else {
            1nat
        }
    }
}

proof fn lemma_unvisited_mark(v: Seq<bool>, i: int)
    requires
        0 <= i < v.len(),
        !v[i],
    ensures
        unvisited(v.update(i, true)) + 1 == unvisited(v),
    decreases v.len(),
{
    let w = v.update(i, true);
    if i == v.len() - 1 {
        assert(w.drop_last() =~= v.drop_last());
    } else {
        assert(w.drop_last() =~= v.drop_last().update(i, true));
        lemma_unvisited_mark(v.drop_last(), i);
    }
}

// ---------------------------------------------------------------------
// Walking the graph

fn find_node(nodes: &Vec<Node>, id: &str) -> (r: Option<usize>)
    ensures
        match r {
            Some(k) => k < nodes@.len() && node_index(nodes@, id@) == Some(k as int),
            None => node_index(nodes@, id@) is None,
        },
{
    let mut i: usize = 0;
    while i < nodes.len()
        invariant
            i <= nodes.len(),
            forall|m: int| 0 <= m < i ==> (#[trigger] nodes@[m]).id@ != id@,
        decreases nodes.len() - i,
    {
        if same_text(nodes[i].id.as_str(), id) {
            proof {
                lemma_node_index(nodes@, id@);
            }
            return Some(i);
        }
        i = i + 1;
    }
    proof {
        lemma_node_index(nodes@, id@);
    }
    None
}

fn find_name(packages: &Vec<Package>, id: &str) -> (r: Option<usize>)
    ensures
        match r {
            Some(k) => k < packages@.len() && name_of(packages@, id@) == Some(packages@[k as int].name@),
            None => name_of(packages@, id@) is None,
        },
{
    let mut i: usize = 0;
    while i < packages.len()
        invariant
            i <= packages.len(),
            forall|m: int| 0 <= m < i ==> (#[trigger] packages@[m]).id@ != id@,
        decreases packages.len() - i,
    {
        if same_text(packages[i].id.as_str(), id) {
            proof {
                lemma_name_of(packages@, id@);
            }
            return Some(i);
        }
        i = i + 1;
    }
    proof {
        lemma_name_of(packages@, id@);
    }
    None
}

fn member_named(members: &Vec<Member>, name: &str) -> (r: bool)
    ensures
        r == is_member_name(members@, name@),
{
    let mut i: usize = 0;
    while i < members.len()
        invariant
            i <= members.len(),
            forall|m: int| 0 <= m < i ==> (#[trigger] members@[m]).name@ != name@,
        decreases members.len() - i,
    {
        if same_text(members[i].name.as_str(), name) {
            return true;
        }
        i = i + 1;
    }
    false
}

/// What the visited nodes report.
pub open spec fn visited_violations(
    meta: Metadata,
    nodes: Seq<Node>,
    dir: Seq<char>,
    allow: Seq<Seq<char>>,
    visited: Seq<bool>,
) -> Set<Seq<char>> {
    Set::new(
        |x: Seq<char>|
            exists|i: int, q: int|
                0 <= i < nodes.len() && visited[i] && #[trigger] dep_violation(
                    meta,
                    nodes,
                    dir,
                    allow,
                    i,
                    q,
                    x,
                ),
    )
}

/// The allowed externals the visited nodes reach.
pub open spec fn visited_reached(
    meta: Metadata,
    nodes: Seq<Node>,
    allow: Seq<Seq<char>>,
    visited: Seq<bool>,
) -> Set<Seq<char>> {
    Set::new(
        |n: Seq<char>|
            exists|i: int, q: int|
                0 <= i < nodes.len() && visited[i] && #[trigger] dep_reached(meta, nodes, allow, i, q, n),
    )
}

pub open spec fn queued(queue: Seq<usize>, head: int, j: int) -> bool {
    exists|k: int| head <= k < queue.len() && queue[k] == j
}

/// Walks the resolved graph from node `s`, through members and externals
/// alike, adding a finding for every external dependency not in
/// `allow-external`, and returning the allowed externals it reached.
fn closure(
    meta: &Metadata,
    nodes: &Vec<Node>,
    s: usize,
    dir: &String,
    allow: &Vec<String>,
    violations: &mut Vec<String>,
) -> (reached: Vec<String>)
    requires
        s < nodes.len(),
    ensures
        texts(final(violations)@).to_set() == texts(old(violations)@).to_set().union(
            closure_violations(*meta, nodes@, dir@, texts(allow@), s as int),
        ),
        texts(reached@).to_set() == closure_reached(*meta, nodes@, texts(allow@), s as int),
{
    let ghost m = *meta;
    let ghost ns = nodes@;
    let ghost al = texts(allow@);
    let ghost base = texts(violations@).to_set();
    let n = nodes.len();
    let mut visited: Vec<bool> = Vec::new();
    let mut z: usize = 0;
    while z < n
        invariant
            z <= n,
            n == nodes.len(),
            visited@.len() == z,
            forall|k: int| 0 <= k < z ==> !visited@[k],
        decreases n - z,
    {
        visited.push(false);
        z = z + 1;
    }
    let mut queue: Vec<usize> = Vec::new();
    queue.push(s);
    let mut head: usize = 0;
    let mut reached: Vec<String> = Vec::new();
    proof {
        let p = seq![s as int];
        assert(is_walk(m, ns, s as int, p));
        assert(reaches(m, ns, s as int, s as int));
        assert(visited_violations(m, ns, dir@, al, visited@) =~= Set::<Seq<char>>::empty());
        assert(visited_reached(m, ns, al, visited@) =~= Set::<Seq<char>>::empty());
        assert(base.union(Set::<Seq<char>>::empty()) =~= base);
        assert(texts(reached@) =~= Seq::<Seq<char>>::empty());
        assert(texts(reached@).to_set() =~= Set::<Seq<char>>::empty());
        assert(queue@[0] == s);
    }
    while head < queue.len()
        invariant
            m == *meta,
            ns == nodes@,
            al == texts(allow@),
            n == nodes.len(),
            s < n,
            base == texts(old(violations)@).to_set(),
            head <= queue.len(),
            visited@.len() == n,
            forall|k: int| 0 <= k < queue.len() ==> (#[trigger] queue@[k]) < n,
            forall|i: int| 0 <= i < n && #[trigger] visited@[i] ==> reaches(m, ns, s as int, i),
            forall|k: int| head <= k < queue.len() ==> reaches(m, ns, s as int, #[trigger] queue@[k] as int),
            visited@[s as int] || queued(queue@, head as int, s as int),
            forall|a: int, b: int|
                0 <= a < n && visited@[a] && #[trigger] step(m, ns, a, b) ==> visited@[b] || queued(
                    queue@,
                    head as int,
                    b,
                ),
            texts(violations@).to_set() == base.union(visited_violations(m, ns, dir@, al, visited@)),
            texts(reached@).to_set() == visited_reached(m, ns, al, visited@),
        decreases unvisited(visited@), queue.len() - head,
    {
        let j = queue[head];
        head = head + 1;
        if visited[j] {
            proof {
                assert forall|a: int, b: int|
                    0 <= a < n && visited@[a] && #[trigger] step(m, ns, a, b) implies visited@[b] || queued(
                        queue@,
                        head as int,
                        b,
                    ) by {
                    if !visited@[b] {
                        let k = choose|k: int| head - 1 <= k < queue@.len() && queue@[k] == b;
                        assert(k != head - 1);
                    }
                }
                if !visited@[s as int] {
                    let k = choose|k: int| head - 1 <= k < queue@.len() && queue@[k] == s;
                    assert(k != head - 1);
                }
            }
            continue;
        }
        let ghost old_visited = visited@;
        let ghost old_queue = queue@;
        let ghost old_head = head;
        assert(reaches(m, ns, s as int, j as int));
        visited.set(j, true);
        proof {
            lemma_unvisited_mark(old_visited, j as int);
        }
        let node = &nodes[j];
        let from = match find_name(&meta.packages, node.id.as_str()) {
            Some(k) => meta.packages[k].name.clone(),
            None => String::new(),
        };
        assert(from@ == node_name(m, ns, j as int));
        let ghost v_before = texts(violations@).to_set();
        let ghost r_before = texts(reached@).to_set();
        let mut q: usize = 0;
        proof {
            assert(v_before.union(Set::<Seq<char>>::empty()) =~= v_before);
            assert(r_before.union(Set::<Seq<char>>::empty()) =~= r_before);
        }
        while q < node.deps.len()
            invariant
                m == *meta,
                ns == nodes@,
                al == texts(allow@),
                n == nodes.len(),
                j < n,
                *node == ns[j as int],
                from@ == node_name(m, ns, j as int),
                q <= node.deps.len(),
                head == old_head,
                head <= queue.len(),
                old_queue.len() <= queue.len(),
                forall|k: int| 0 <= k < old_queue.len() ==> queue@[k] == old_queue[k],
                forall|k: int| 0 <= k < queue.len() ==> (#[trigger] queue@[k]) < n,
                forall|k: int| head <= k < queue.len() ==> reaches(m, ns, s as int, #[trigger] queue@[k] as int),
                reaches(m, ns, s as int, j as int),
                forall|t: int|
                    (exists|p: int| 0 <= p < q && #[trigger] dep_edge(m, ns, j as int, p, t)) ==> queued(
                        queue@,
                        head as int,
                        t,
                    ),
                texts(violations@).to_set() == v_before.union(
                    Set::new(
                        |x: Seq<char>|
                            exists|p: int| 0 <= p < q && #[trigger] dep_violation(m, ns, dir@, al, j as int, p, x),
                    ),
                ),
                texts(reached@).to_set() == r_before.union(
                    Set::new(
                        |x: Seq<char>|
                            exists|p: int| 0 <= p < q && #[trigger] dep_reached(m, ns, al, j as int, p, x),
                    ),
                ),
            decreases node.deps.len() - q,
        {
            let d = &node.deps[q];
            let ghost vq = texts(violations@).to_set();
            let ghost rq = texts(reached@).to_set();
            let ghost qq = queue@;
            let ghost mut added_v: Set<Seq<char>> = Set::empty();
            let ghost mut added_r: Set<Seq<char>> = Set::empty();
            if d.normal {
                match find_name(&meta.packages, d.pkg.as_str()) {
                    None => {},
                    Some(nk) => {
                        let dep_name = &meta.packages[nk].name;
                        match find_node(nodes, d.pkg.as_str()) {
                            Some(t) => {
                                proof {
                                    lemma_node_index(ns, d.pkg@);
                                    assert(dep_edge(m, ns, j as int, q as int, t as int));
                                    let pw = choose|pw: Seq<int>| #[trigger] is_walk(m, ns, s as int, pw) && pw.last() == j;
                                    lemma_walk_extend(m, ns, s as int, pw, t as int);
                                }
                                queue.push(t);
                            },
                            None => {},
                        }
                        if member_named(&meta.members, dep_name.as_str()) {
                        } else if holds(allow, dep_name.as_str()) {
                            let ghost old_r = reached@;
                            let name = dep_name.clone();
                            proof {
                                added_r = added_r.insert(name@);
                                assert(external_dep(m, ns, j as int, q as int, dep_name@));
                            }
                            reached.push(name);
                            proof {
                                lemma_push_text(old_r, reached@, name);
                            }
                        } else {
                            let mut line = dir.clone();
                            line.append(" reaches an external crate not in `allow-external`: ");
                            line.append(from.as_str());
                            line.append(" -> ");
                            line.append(dep_name.as_str());
                            let ghost old_v = violations@;
                            proof {
                                added_v = added_v.insert(line@);
                                assert(external_dep(m, ns, j as int, q as int, dep_name@));
                            }
                            violations.push(line);
                            proof {
                                lemma_push_text(old_v, violations@, line);
                            }
                        }
                    },
                }
            }
            proof {
                assert(queue@.len() >= qq.len());
                assert(forall|k: int| 0 <= k < qq.len() ==> queue@[k] == qq[k]);
                assert(texts(violations@).to_set() =~= vq.union(added_v));
                assert(texts(reached@).to_set() =~= rq.union(added_r));
                assert(added_v =~= Set::new(|x: Seq<char>| dep_violation(m, ns, dir@, al, j as int, q as int, x))) by {
                    assert forall|x: Seq<char>| dep_violation(m, ns, dir@, al, j as int, q as int, x) implies added_v.contains(x) by {
                        let nm = choose|nm: Seq<char>| #[trigger] external_dep(m, ns, j as int, q as int, nm) && !al.contains(nm) && x == external_finding(dir@, node_name(m, ns, j as int), nm);
                    }
                }
                assert(added_r =~= Set::new(|x: Seq<char>| dep_reached(m, ns, al, j as int, q as int, x)));
                assert(texts(violations@).to_set() =~= v_before.union(
                    Set::new(
                        |x: Seq<char>|
                            exists|p: int| 0 <= p < q + 1 && #[trigger] dep_violation(m, ns, dir@, al, j as int, p, x),
                    ),
                )) by {
                    assert forall|x: Seq<char>| (exists|p: int| 0 <= p < q + 1 && #[trigger] dep_violation(m, ns, dir@, al, j as int, p, x))
                        implies (exists|p: int| 0 <= p < q && #[trigger] dep_violation(m, ns, dir@, al, j as int, p, x)) || added_v.contains(x) by {
                        let p = choose|p: int| 0 <= p < q + 1 && #[trigger] dep_violation(m, ns, dir@, al, j as int, p, x);
                        if p == q {
                            assert(dep_violation(m, ns, dir@, al, j as int, q as int, x));
                        }
                    }
                }
                assert(texts(reached@).to_set() =~= r_before.union(
                    Set::new(
                        |x: Seq<char>|
                            exists|p: int| 0 <= p < q + 1 && #[trigger] dep_reached(m, ns, al, j as int, p, x),
                    ),
                )) by {
                    assert forall|x: Seq<char>| (exists|p: int| 0 <= p < q + 1 && #[trigger] dep_reached(m, ns, al, j as int, p, x))
                        implies (exists|p: int| 0 <= p < q && #[trigger] dep_reached(m, ns, al, j as int, p, x)) || added_r.contains(x) by {
                        let p = choose|p: int| 0 <= p < q + 1 && #[trigger] dep_reached(m, ns, al, j as int, p, x);
                        if p == q {
                            assert(dep_reached(m, ns, al, j as int, q as int, x));
                        }
                    }
                }
                assert forall|t: int|
                    (exists|p: int| 0 <= p < q + 1 && #[trigger] dep_edge(m, ns, j as int, p, t)) implies queued(
                        queue@,
                        head as int,
                        t,
                    ) by {
                    let p = choose|p: int| 0 <= p < q + 1 && #[trigger] dep_edge(m, ns, j as int, p, t);
                    if p < q {
                        assert(queued(qq, head as int, t));
                        let k = choose|k: int| head <= k < qq.len() && qq[k] == t;
                        assert(queue@[k] == t);
                    } else {
                        lemma_node_index(ns, ns[j as int].deps@[q as int].pkg@);
                        assert(queue@[queue@.len() - 1] == t);
                    }
                }
            }
            q = q + 1;
        }
        proof {
            let vnew = visited@;
            assert(vnew =~= old_visited.update(j as int, true));
            assert(visited_violations(m, ns, dir@, al, vnew) =~= visited_violations(m, ns, dir@, al, old_visited).union(
                Set::new(
                    |x: Seq<char>|
                        exists|p: int| 0 <= p < node.deps.len() && #[trigger] dep_violation(m, ns, dir@, al, j as int, p, x),
                ),
            )) by {
                assert forall|x: Seq<char>| visited_violations(m, ns, dir@, al, vnew).contains(x) implies
                    visited_violations(m, ns, dir@, al, old_visited).contains(x) || exists|p: int| 0 <= p < node.deps.len() && #[trigger] dep_violation(m, ns, dir@, al, j as int, p, x) by {
                    let (i, p) = choose|i: int, p: int| 0 <= i < ns.len() && vnew[i] && #[trigger] dep_violation(m, ns, dir@, al, i, p, x);
                    if i == j {
                        let nm = choose|nm: Seq<char>| #[trigger] external_dep(m, ns, i, p, nm) && !al.contains(nm) && x == external_finding(dir@, node_name(m, ns, i), nm);
                    }
                }
            }
            assert(visited_reached(m, ns, al, vnew) =~= visited_reached(m, ns, al, old_visited).union(
                Set::new(
                    |x: Seq<char>|
                        exists|p: int| 0 <= p < node.deps.len() && #[trigger] dep_reached(m, ns, al, j as int, p, x),
                ),
            )) by {
                assert forall|x: Seq<char>| visited_reached(m, ns, al, vnew).contains(x) implies
                    visited_reached(m, ns, al, old_visited).contains(x) || exists|p: int| 0 <= p < node.deps.len() && #[trigger] dep_reached(m, ns, al, j as int, p, x) by {
                    let (i, p) = choose|i: int, p: int| 0 <= i < ns.len() && vnew[i] && #[trigger] dep_reached(m, ns, al, i, p, x);
                }
            }
            assert(texts(violations@).to_set() =~= base.union(visited_violations(m, ns, dir@, al, vnew)));
            assert forall|a: int, b: int|
                0 <= a < n && vnew[a] && #[trigger] step(m, ns, a, b) implies vnew[b] || queued(queue@, head as int, b) by {
                lemma_step_in_range(m, ns, a, b);
                if a == j {
                    let p = choose|p: int| #[trigger] dep_edge(m, ns, a, p, b);
                } else {
                    assert(old_visited[a]);
                    if !old_visited[b] {
                        let k = choose|k: int| head - 1 <= k < old_queue.len() && old_queue[k] == b;
                        if k == head - 1 {
                            assert(b == j);
                        } else {
                            assert(queue@[k] == b);
                        }
                    }
                }
            }
            if !old_visited[s as int] {
                let k = choose|k: int| head - 1 <= k < old_queue.len() && old_queue[k] == s;
                if k != head - 1 {
                    assert(queue@[k] == s);
                }
            }
            assert forall|i: int| 0 <= i < n && #[trigger] vnew[i] implies reaches(m, ns, s as int, i) by {
                if i != j {
                    assert(old_visited[i]);
                }
            }
        }
    }
    proof {
        assert forall|i: int| 0 <= i < n implies (visited@[i] <==> reaches(m, ns, s as int, i)) by {
            if reaches(m, ns, s as int, i) {
                lemma_closed_holds_reach(m, ns, s as int, visited@, i);
            }
        }
        assert(visited_violations(m, ns, dir@, al, visited@) =~= closure_violations(m, ns, dir@, al, s as int));
        assert(visited_reached(m, ns, al, visited@) =~= closure_reached(m, ns, al, s as int));
    }
    reached
}

// ---------------------------------------------------------------------
// One crate, and the rule

pub open spec fn not_member_message(dir: Seq<char>) -> Seq<char> {
    "`pure` names "@ + dir + ", which is not a workspace member"@
}

pub open spec fn no_graph_message() -> Seq<char> {
    "`cargo metadata` returned no resolved dependency graph"@
}

pub open spec fn unreached_message(entry: Seq<char>, dir: Seq<char>) -> Seq<char> {
    "`allow-external` lists "@ + entry + ", which nothing under "@ + dir + " reaches"@
}

pub open spec fn forbidden_message(dir: Seq<char>, path: Seq<char>, file: Seq<char>) -> Seq<char> {
    dir + " names a forbidden path: "@ + path + " in "@ + file
}

/// The position of the first member living in `dir`.
pub open spec fn member_in(members: Seq<Member>, dir: Seq<char>) -> Option<int>
    decreases members.len(),
{
    if members.len() == 0 {
        None
    } else if member_dir(members[0]) == Some(dir) {
        Some(0)
    } else {
        match member_in(members.drop_first(), dir) {
            Some(k) => Some(k + 1),
            None => None,
        }
    }
}

/// The forbidden paths `dir`'s sources name, path by path; the first path
/// whose sources cannot be read is an error.
pub open spec fn forbid_scan(dir: Seq<char>, forbid: Seq<Seq<char>>, sources: Seq<Sources>) -> Result<
    Set<Seq<char>>,
    Seq<char>,
>
    decreases forbid.len(),
{
    if forbid.len() == 0 {
        Ok(Set::empty())
    } else {
        match grep_result(sources, dir, forbid[0]) {
            Err(e) => Err(e),
            Ok(h) => crate::door::gather(
                Set::new(
                    |x: Seq<char>|
                        exists|f: Seq<char>| h.contains(f) && x == forbidden_message(dir, forbid[0], f),
                ),
                forbid_scan(dir, forbid.drop_first(), sources),
            ),
        }
    }
}

/// What `pure` reports about the crate in `dir`.
pub open spec fn pure_one(meta: Metadata, sources: Seq<Sources>, dir: Seq<char>, p: PureSpec) -> Result<
    Set<Seq<char>>,
    Seq<char>,
> {
    match member_in(meta.members@, dir) {
        None => Ok(Set::empty().insert(not_member_message(dir))),
        Some(k) => match meta.resolve {
            None => Err(no_graph_message()),
            Some(nodes) => {
                let start = node_index(nodes@, meta.members@[k].id@);
                let found = match start {
                    Some(s) => closure_violations(meta, nodes@, dir, p.allow_external, s),
                    None => Set::empty(),
                };
                let reached = match start {
                    Some(s) => closure_reached(meta, nodes@, p.allow_external, s),
                    None => Set::empty(),
                };
                let unreached = Set::new(
                    |x: Seq<char>|
                        exists|e: Seq<char>|
                            p.allow_external.contains(e) && !reached.contains(e) && x
                                == unreached_message(e, dir),
                );
                match forbid_scan(dir, p.forbid, sources) {
                    Err(e) => Err(e),
                    Ok(named) => Ok(found.union(unreached).union(named)),
                }
            },
        },
    }
}

/// What `pure` reports about each named crate, crate by crate.
pub open spec fn pure_scan(
    meta: Metadata,
    sources: Seq<Sources>,
    p: PureSpec,
    crates: Seq<Seq<char>>,
) -> Result<Set<Seq<char>>, Seq<char>>
    decreases crates.len(),
{
    if crates.len() == 0 {
        Ok(Set::empty())
    } else {
        match pure_one(meta, sources, crates[0], p) {
            Err(e) => Err(e),
            Ok(s) => crate::door::gather(s, pure_scan(meta, sources, p, crates.drop_first())),
        }
    }
}

/// What a `pure` rule finds in a workspace: how many crates it checked,
/// and its findings.
pub open spec fn pure_outcome(rule: Rule, ws: Workspace) -> Result<
    (Seq<char>, Set<Seq<char>>),
    Seq<char>,
> {
    match ws.resolved {
        Err(e) => Err(e@),
        Ok(meta) => match pure_params(rule) {
            Err(e) => Err(e),
            Ok(p) => match pure_scan(meta, ws.sources@, p, p.crates) {
                Err(e) => Err(e),
                Ok(s) => Ok((plural_text(p.crates.len(), "crate"@), s)),
            },
        },
    }
}

pub proof fn lemma_member_in(members: Seq<Member>, dir: Seq<char>)
    ensures
        match member_in(members, dir) {
            Some(k) => 0 <= k < members.len() && member_dir(members[k]) == Some(dir) && forall|m: int|
                0 <= m < k ==> member_dir(#[trigger] members[m]) != Some(dir),
            None => forall|m: int| 0 <= m < members.len() ==> member_dir(#[trigger] members[m]) != Some(dir),
        },
    decreases members.len(),
{
    if members.len() > 0 {
        lemma_member_in(members.drop_first(), dir);
        if member_dir(members[0]) != Some(dir) {
            assert forall|m: int| 0 < m < members.len() implies members[m] == members.drop_first()[m - 1] by {}
        }
    }
}

fn find_member(members: &Vec<Member>, dir: &str) -> (r: Option<usize>)
    ensures
        match r {
            Some(k) => k < members@.len() && member_in(members@, dir@) == Some(k as int),
            None => member_in(members@, dir@) is None,
        },
{
    let mut i: usize = 0;
    while i < members.len()
        invariant
            i <= members.len(),
            forall|m: int| 0 <= m < i ==> member_dir(#[trigger] members@[m]) != Some(dir@),
        decreases members.len() - i,
    {
        match dir_of(&members[i]) {
            Some(d) => {
                if same_text(d.as_str(), dir) {
                    proof {
                        lemma_member_in(members@, dir@);
                    }
                    return Some(i);
                }
            },
            None => {},
        }
        i = i + 1;
    }
    proof {
        lemma_member_in(members@, dir@);
    }
    None
}

impl Pure {
    fn read(rule: &Rule) -> (r: Result<Pure, String>)
        ensures
            match r {
                Ok(p) => pure_params(*rule) == Ok::<PureSpec, Seq<char>>(p@),
                Err(e) => pure_params(*rule) == Err::<PureSpec, Seq<char>>(e@),
            },
    {
        let entries = match rule.map("pure") {
            Some(e) => e,
            None => {
                let mut m = rule.path.clone();
                m.append(": `@rule(");
                m.append(rule.id.as_str());
                m.append(")` guards `pure` but declares no `pure:` parameter");
                return Err(m);
            },
        };
        let ghost start = PureSpec {
            crates: Seq::empty(),
            allow_external: Seq::empty(),
            forbid: Seq::empty(),
        };
        let mut crates: Vec<String> = Vec::new();
        let mut allow_external: Vec<String> = Vec::new();
        let mut forbid: Vec<String> = Vec::new();
        let mut i: usize = 0;
        assert(entries@.subrange(0, entries@.len() as int) =~= entries@);
        assert(texts(crates@) =~= Seq::<Seq<char>>::empty());
        assert(texts(allow_external@) =~= Seq::<Seq<char>>::empty());
        assert(texts(forbid@) =~= Seq::<Seq<char>>::empty());
        while i < entries.len()
            invariant
                i <= entries.len(),
                param(rule.group@, "pure"@) == Some(*entries),
                start == (PureSpec {
                    crates: Seq::empty(),
                    allow_external: Seq::empty(),
                    forbid: Seq::empty(),
                }),
                pure_fold(entries@, start) == pure_fold(
                    entries@.subrange(i as int, entries@.len() as int),
                    PureSpec {
                        crates: texts(crates@),
                        allow_external: texts(allow_external@),
                        forbid: texts(forbid@),
                    },
                ),
            decreases entries.len() - i,
        {
            let key = &entries[i].0;
            let value = &entries[i].1;
            assert(entries@.subrange(i as int, entries@.len() as int).drop_first() =~= entries@.subrange(
                i + 1,
                entries@.len() as int,
            ));
            assert(entries@.subrange(i as int, entries@.len() as int)[0] == entries@[i as int]);
            if same_text(key.as_str(), "crates") {
                crates = match strings("`pure`", key.as_str(), value) {
                    Ok(l) => l,
                    Err(e) => {
                        return Err(e);
                    },
                };
            } else if same_text(key.as_str(), "forbid") {
                forbid = match strings("`pure`", key.as_str(), value) {
                    Ok(l) => l,
                    Err(e) => {
                        return Err(e);
                    },
                };
            } else if same_text(key.as_str(), "allow-external") {
                allow_external = match strings("`pure`", key.as_str(), value) {
                    Ok(l) => l,
                    Err(e) => {
                        return Err(e);
                    },
                };
            } else {
                let mut m = owned("`pure` does not know the key `");
                m.append(key.as_str());
                m.append("`");
                return Err(m);
            }
            i = i + 1;
        }
        if crates.len() == 0 {
            return Err(owned("`pure` names no crates"));
        }
        Ok(Pure { crates, allow_external, forbid })
    }
}

/// The forbidden paths the sources of `dir` name, added as findings.
fn scan_forbidden(pure: &Pure, dir: &String, sources: &Vec<Sources>, violations: &mut Vec<String>) -> (r: Result<(), String>)
    ensures
        match r {
            Ok(()) => forbid_scan(dir@, pure@.forbid, sources@) matches Ok(s)
                && texts(final(violations)@).to_set() == texts(old(violations)@).to_set().union(s),
            Err(e) => forbid_scan(dir@, pure@.forbid, sources@) == Err::<Set<Seq<char>>, Seq<char>>(e@),
        },
{
    let ghost fs = pure@.forbid;
    let ghost base = texts(violations@).to_set();
    let ghost mut found: Set<Seq<char>> = Set::empty();
    let mut j: usize = 0;
    assert(fs.subrange(0, fs.len() as int) =~= fs);
    assert(base.union(Set::<Seq<char>>::empty()) =~= base);
    proof {
        match forbid_scan(dir@, fs, sources@) {
            Ok(x) => {
                assert(Set::<Seq<char>>::empty().union(x) =~= x);
            },
            Err(_) => {},
        }
    }
    while j < pure.forbid.len()
        invariant
            j <= pure.forbid.len(),
            fs == pure@.forbid,
            fs.len() == pure.forbid.len(),
            base == texts(old(violations)@).to_set(),
            texts(violations@).to_set() == base.union(found),
            forbid_scan(dir@, fs, sources@) == crate::door::gather(
                found,
                forbid_scan(dir@, fs.subrange(j as int, fs.len() as int), sources@),
            ),
        decreases pure.forbid.len() - j,
    {
        let path = &pure.forbid[j];
        let ghost tail = fs.subrange(j as int, fs.len() as int);
        assert(tail.drop_first() =~= fs.subrange(j + 1, fs.len() as int));
        assert(tail[0] == path@);
        let hits = match grep_sources(sources, dir.as_str(), path.as_str()) {
            Ok(h) => h,
            Err(e) => {
                return Err(e);
            },
        };
        let ghost h = grep_result(sources@, dir@, path@)->Ok_0;
        proof {
            lemma_same_elements(texts(hits@), h);
        }
        let ghost before = texts(violations@).to_set();
        let mut k: usize = 0;
        assert(before.union(Set::<Seq<char>>::empty()) =~= before);
        assert(Set::new(
            |x: Seq<char>|
                exists|m: int| 0 <= m < 0 && x == forbidden_message(dir@, path@, #[trigger] texts(hits@)[m]),
        ) =~= Set::<Seq<char>>::empty());
        while k < hits.len()
            invariant
                k <= hits.len(),
                texts(violations@).to_set() == before.union(
                    Set::new(
                        |x: Seq<char>|
                            exists|m: int| 0 <= m < k && x == forbidden_message(dir@, path@, #[trigger] texts(hits@)[m]),
                    ),
                ),
            decreases hits.len() - k,
        {
            let mut line = dir.clone();
            line.append(" names a forbidden path: ");
            line.append(path.as_str());
            line.append(" in ");
            line.append(hits[k].as_str());
            let ghost old_v = violations@;
            let ghost lv = line@;
            violations.push(line);
            proof {
                lemma_push_text(old_v, violations@, line);
                assert(lv == forbidden_message(dir@, path@, texts(hits@)[k as int]));
                assert(texts(violations@).to_set() =~= before.union(
                    Set::new(
                        |x: Seq<char>|
                            exists|m: int| 0 <= m < k + 1 && x == forbidden_message(dir@, path@, #[trigger] texts(hits@)[m]),
                    ),
                ));
            }
            k = k + 1;
        }
        proof {
            let here = Set::new(
                |x: Seq<char>|
                    exists|f: Seq<char>| h.contains(f) && x == forbidden_message(dir@, path@, f),
            );
            assert(Set::new(
                |x: Seq<char>|
                    exists|m: int| 0 <= m < hits.len() && x == forbidden_message(dir@, path@, #[trigger] texts(hits@)[m]),
            ) =~= here) by {
                assert forall|x: Seq<char>| here.contains(x) implies exists|m: int|
                    0 <= m < hits.len() && x == forbidden_message(dir@, path@, #[trigger] texts(hits@)[m]) by {
                    let f = choose|f: Seq<char>| h.contains(f) && x == forbidden_message(dir@, path@, f);
                    assert(texts(hits@).contains(f));
                    let m = choose|m: int| 0 <= m < texts(hits@).len() && texts(hits@)[m] == f;
                    assert(x == forbidden_message(dir@, path@, texts(hits@)[m]));
                }
                assert forall|x: Seq<char>| (exists|m: int|
                    0 <= m < hits.len() && x == forbidden_message(dir@, path@, #[trigger] texts(hits@)[m])) implies here.contains(x) by {
                    let m = choose|m: int| 0 <= m < hits.len() && x == forbidden_message(dir@, path@, #[trigger] texts(hits@)[m]);
                    assert(texts(hits@).contains(texts(hits@)[m]));
                    assert(h.contains(texts(hits@)[m]));
                }
            }
            assert(texts(violations@).to_set() =~= base.union(found.union(here)));
            match forbid_scan(dir@, tail.drop_first(), sources@) {
                Ok(r2) => {
                    assert(found.union(here.union(r2)) =~= found.union(here).union(r2));
                },
                Err(_) => {},
            }
            found = found.union(here);
        }
        j = j + 1;
    }
    proof {
        let empty = fs.subrange(fs.len() as int, fs.len() as int);
        assert(empty =~= Seq::<Seq<char>>::empty());
        assert(found.union(Set::<Seq<char>>::empty()) =~= found);
    }
    Ok(())
}

/// Checks one crate named by a `pure` rule, adding what it finds.
fn check_one(meta: &Metadata, sources: &Vec<Sources>, dir: &String, pure: &Pure, violations: &mut Vec<String>) -> (r: Result<(), String>)
    ensures
        match r {
            Ok(()) => pure_one(*meta, sources@, dir@, pure@) matches Ok(s)
                && texts(final(violations)@).to_set() == texts(old(violations)@).to_set().union(s),
            Err(e) => pure_one(*meta, sources@, dir@, pure@) == Err::<Set<Seq<char>>, Seq<char>>(e@),
        },
{
    let ghost base = texts(violations@).to_set();
    let k = match find_member(&meta.members, dir.as_str()) {
        Some(k) => k,
        None => {
            let mut line = owned("`pure` names ");
            line.append(dir.as_str());
            line.append(", which is not a workspace member");
            let ghost old_v = violations@;
            violations.push(line);
            proof {
                lemma_push_text(old_v, violations@, line);
                assert(Set::<Seq<char>>::empty().insert(line@) =~= set![line@]);
                assert(base.insert(line@) =~= base.union(Set::<Seq<char>>::empty().insert(line@)));
            }
            return Ok(());
        },
    };
    let nodes = match &meta.resolve {
        Some(n) => n,
        None => {
            return Err(owned("`cargo metadata` returned no resolved dependency graph"));
        },
    };
    let ghost allow = pure@.allow_external;
    let reached: Vec<String> = match find_node(nodes, meta.members[k].id.as_str()) {
        Some(s) => closure(meta, nodes, s, dir, &pure.allow_external, violations),
        None => {
            let v: Vec<String> = Vec::new();
            assert(texts(v@).to_set() =~= Set::<Seq<char>>::empty());
            assert(base.union(Set::<Seq<char>>::empty()) =~= base);
            v
        },
    };
    let ghost after_walk = texts(violations@).to_set();
    let ghost reached_set = texts(reached@).to_set();

    // The other direction. An entry nothing reaches is not a permission:
    // it is a claim about this workspace that has stopped being true.
    let mut i: usize = 0;
    assert(after_walk.union(Set::<Seq<char>>::empty()) =~= after_walk);
    while i < pure.allow_external.len()
        invariant
            i <= pure.allow_external.len(),
            allow == pure@.allow_external,
            reached_set == texts(reached@).to_set(),
            texts(violations@).to_set() == after_walk.union(
                Set::new(
                    |x: Seq<char>|
                        exists|m: int|
                            0 <= m < i && !reached_set.contains(#[trigger] allow[m]) && x
                                == unreached_message(allow[m], dir@),
                ),
            ),
        decreases pure.allow_external.len() - i,
    {
        let entry = &pure.allow_external[i];
        assert(allow[i as int] == entry@);
        if !holds(&reached, entry.as_str()) {
            let mut line = owned("`allow-external` lists ");
            line.append(entry.as_str());
            line.append(", which nothing under ");
            line.append(dir.as_str());
            line.append(" reaches");
            let ghost old_v = violations@;
            violations.push(line);
            proof {
                lemma_push_text(old_v, violations@, line);
            }
        }
        assert(texts(violations@).to_set() =~= after_walk.union(
            Set::new(
                |x: Seq<char>|
                    exists|m: int|
                        0 <= m < i + 1 && !reached_set.contains(#[trigger] allow[m]) && x
                            == unreached_message(allow[m], dir@),
            ),
        ));
        i = i + 1;
    }
    let ghost unreached = Set::new(
        |x: Seq<char>|
            exists|e: Seq<char>|
                allow.contains(e) && !reached_set.contains(e) && x == unreached_message(e, dir@),
    );
    assert(Set::new(
        |x: Seq<char>|
            exists|m: int|
                0 <= m < allow.len() && !reached_set.contains(#[trigger] allow[m]) && x
                    == unreached_message(allow[m], dir@),
    ) =~= unreached) by {
        assert forall|x: Seq<char>| unreached.contains(x) implies exists|m: int|
            0 <= m < allow.len() && !reached_set.contains(#[trigger] allow[m]) && x == unreached_message(allow[m], dir@) by {
            let e = choose|e: Seq<char>| allow.contains(e) && !reached_set.contains(e) && x == unreached_message(e, dir@);
            let m = choose|m: int| 0 <= m < allow.len() && allow[m] == e;
            assert(!reached_set.contains(allow[m]));
        }
    }
    let ghost before_forbid = texts(violations@).to_set();
    match scan_forbidden(pure, dir, sources, violations) {
        Ok(()) => {},
        Err(e) => {
            return Err(e);
        },
    }
    proof {
        let named = forbid_scan(dir@, pure@.forbid, sources@)->Ok_0;
        let walk = after_walk.difference(base);
        match node_index(nodes@, meta.members@[k as int].id@) {
            Some(s) => {
                assert(texts(violations@).to_set() =~= base.union(
                    closure_violations(*meta, nodes@, dir@, allow, s).union(unreached).union(named),
                ));
            },
            None => {
                assert(texts(violations@).to_set() =~= base.union(
                    Set::<Seq<char>>::empty().union(unreached).union(named),
                ));
            },
        }
    }
    Ok(())
}

/// Checks one `pure` rule against the workspace.
///
/// The forbidden-path half reads the named crate's own `src` only: not its
/// build script, nor the sources of a member it reaches.
pub fn check(rule: &Rule, ws: &Workspace) -> (r: Result<Outcome, String>)
    ensures
        outcome_is(r, pure_outcome(*rule, *ws)),
{
    let meta = match &ws.resolved {
        Ok(m) => m,
        Err(e) => {
            return Err(e.clone());
        },
    };
    let pure = match Pure::read(rule) {
        Ok(p) => p,
        Err(e) => {
            return Err(e);
        },
    };
    let ghost p = pure@;
    let mut violations: Vec<String> = Vec::new();
    let ghost mut found: Set<Seq<char>> = Set::empty();
    let mut i: usize = 0;
    assert(p.crates.subrange(0, p.crates.len() as int) =~= p.crates);
    assert(texts(violations@).to_set() =~= Set::<Seq<char>>::empty());
    proof {
        match pure_scan(*meta, ws.sources@, p, p.crates) {
            Ok(x) => {
                assert(Set::<Seq<char>>::empty().union(x) =~= x);
            },
            Err(_) => {},
        }
    }
    while i < pure.crates.len()
        invariant
            i <= pure.crates.len(),
            p == pure@,
            p.crates.len() == pure.crates.len(),
            ws.resolved == Ok::<Metadata, String>(*meta),
            pure_params(*rule) == Ok::<PureSpec, Seq<char>>(p),
            texts(violations@).to_set() == found,
            pure_scan(*meta, ws.sources@, p, p.crates) == crate::door::gather(
                found,
                pure_scan(*meta, ws.sources@, p, p.crates.subrange(i as int, p.crates.len() as int)),
            ),
        decreases pure.crates.len() - i,
    {
        let dir = &pure.crates[i];
        let ghost tail = p.crates.subrange(i as int, p.crates.len() as int);
        assert(tail.drop_first() =~= p.crates.subrange(i + 1, p.crates.len() as int));
        assert(tail[0] == dir@);
        match check_one(meta, &ws.sources, dir, &pure, &mut violations) {
            Ok(()) => {
                proof {
                    let s = pure_one(*meta, ws.sources@, dir@, p)->Ok_0;
                    match pure_scan(*meta, ws.sources@, p, tail.drop_first()) {
                        Ok(r2) => {
                            assert(found.union(s.union(r2)) =~= found.union(s).union(r2));
                        },
                        Err(_) => {},
                    }
                    found = found.union(s);
                }
            },
            Err(e) => {
                return Err(e);
            },
        }
        i = i + 1;
    }
    proof {
        assert(p.crates.subrange(p.crates.len() as int, p.crates.len() as int) =~= Seq::<Seq<char>>::empty());
        assert(found.union(Set::<Seq<char>>::empty()) =~= found);
    }
    let violations = sort_unique(violations);
    let scope = plural(pure.crates.len(), "crate");
    Ok(Outcome::checked(scope, violations))
}

} // verus!
