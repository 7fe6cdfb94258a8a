//! What the graph explorer computes from a stored graph: how many edges point at each
//! package, name search, crate summaries, and the neighbour lists it lays out.

use vstd::prelude::*;

use crate::ranking::{sort_candidates, sort_dependents, sort_search_entries};
use crate::versions::permutes;
use crate::graph::{DependencyKind, kind_of_code};
use crate::text::{
    Order, ascii_lowercase, ascii_lowercase_chars, occurs_in, text_contains, text_equals,
    text_order, text_starts_with, trim_text, trimmed, decimal_text, decimal_u64, push_text,
};
use vstd::hash_map::StringHashMap;
use crate::format::{NO_STRING, is_best_named, package_named, stored_optional, stored_uses_default_features};
use crate::graph::kind_name;
use crate::format::{Decoded, FormatError, GraphModel, StoredDependency, StoredGraph, StoredPackage, decode_graph};

verus! {

/// Where the dependencies of `p` end in the dependency list.
pub open spec fn range_end(p: StoredPackage) -> int {
    p.dependency_start + p.dependency_count
}

/// Every package's dependency range lies inside the dependency list.
pub open spec fn slices_in_range(g: GraphModel) -> bool {
    forall|i: int| 0 <= i < g.packages.len() ==> #[trigger] range_end(g.packages[i]) <= g.dependencies.len()
}

/// Whether every package's dependency range lies inside the dependency list, which the
/// explorer's functions need of the graph they are given.
pub fn ranges_fit(graph: &StoredGraph) -> (r: bool)
    ensures
        r == slices_in_range(graph@),
{
    let total = graph.dependencies.len();
    let mut i: usize = 0;
    while i < graph.packages.len()
        invariant
            i <= graph.packages@.len(),
            total == graph@.dependencies.len(),
            forall|k: int| 0 <= k < i ==> #[trigger] range_end(graph@.packages[k]) <= total,
        decreases graph.packages@.len() - i,
    {
        let package = &graph.packages[i];
        let end: u64 = package.dependency_start as u64 + package.dependency_count as u64;
        if end > total as u64 {
            assert(range_end(graph@.packages[i as int]) > graph@.dependencies.len());
            return false;
        }
        i = i + 1;
    }
    true
}

/// The dependencies that package `p` owns.
pub open spec fn owned_by(g: GraphModel, p: StoredPackage) -> Seq<StoredDependency> {
    g.dependencies.subrange(p.dependency_start as int, range_end(p))
}

/// How many of `deps` point at package `t`.
pub open spec fn edges_into(deps: Seq<StoredDependency>, t: int) -> nat
    decreases deps.len(),
{
    if deps.len() == 0 {
        0
    } else {
        edges_into(deps.drop_last(), t) + if deps.last().package_index == t {
            1nat
        } else {
            0nat
        }
    }
}

/// How many dependencies of the first `n` packages point at package `t`.
pub open spec fn edges_into_from(g: GraphModel, n: int, t: int) -> nat
    decreases n,
{
    if n <= 0 {
        0
    } else {
        edges_into_from(g, n - 1, t) + edges_into(owned_by(g, g.packages[n - 1]), t)
    }
}

/// The number of dependencies in the graph that point at package `t` (a package that
/// names `t` twice counts twice).
pub open spec fn dependent_count(g: GraphModel, t: int) -> nat {
    edges_into_from(g, g.packages.len() as int, t)
}

/// `n`, or `u32::MAX` when it does not fit.
pub open spec fn saturated(n: nat) -> u32 {
    if n < u32::MAX {
        n as u32
    } else {
        u32::MAX
    }
}

/// For each package, how many dependencies point at it, stopping at `u32::MAX`.
/// Dependencies whose target is not a package are not counted.
pub fn dependent_counts(graph: &StoredGraph) -> (r: Vec<u32>)
    requires
        slices_in_range(graph@),
    ensures
        r@.len() == graph@.packages.len(),
        forall|t: int| 0 <= t < r@.len() ==> #[trigger] r@[t] == saturated(dependent_count(graph@, t)),
{
    let ghost g = graph@;
    let n = graph.packages.len();
    let mut counts: Vec<u32> = Vec::new();
    let mut i: usize = 0;
    while i < n
        invariant
            i <= n,
            counts@.len() == i,
            forall|t: int| 0 <= t < i ==> #[trigger] counts@[t] == 0,
        decreases n - i,
    {
        counts.push(0);
        i = i + 1;
    }
    let mut p: usize = 0;
    while p < n
        invariant
            g == graph@,
            n == g.packages.len(),
            slices_in_range(g),
            p <= n,
            counts@.len() == n,
            forall|t: int| 0 <= t < n ==> #[trigger] counts@[t] == saturated(edges_into_from(g, p as int, t)),
        decreases n - p,
    {
        let package = &graph.packages[p];
        assert(range_end(g.packages[p as int]) <= g.dependencies.len());
        let deps = graph.dependency_slice(package);
        assert(deps@ == owned_by(g, g.packages[p as int]));
        assert(deps@.take(0) =~= Seq::<StoredDependency>::empty());
        let mut k: usize = 0;
        while k < deps.len()
            invariant
                g == graph@,
                n == g.packages.len(),
                p < n,
                k <= deps@.len(),
                deps@ == owned_by(g, g.packages[p as int]),
                counts@.len() == n,
                forall|t: int|
                    0 <= t < n ==> #[trigger] counts@[t] == saturated(
                        edges_into_from(g, p as int, t) + edges_into(deps@.take(k as int), t),
                    ),
            decreases deps@.len() - k,
        {
            let target = deps[k].package_index as usize;
            assert(deps@.take(k + 1).drop_last() =~= deps@.take(k as int));
            assert(deps@.take(k + 1).last() == deps@[k as int]);
            if target < counts.len() {
                let c = counts[target];
                counts.set(target, c.saturating_add(1));
            }
            k = k + 1;
        }
        assert(deps@.take(deps@.len() as int) =~= deps@);
        p = p + 1;
    }
    counts
}


/// A stored graph opened for exploring, with the number of edges into each package.
pub struct GraphHandle {
    graph: StoredGraph,
    dependent_counts: Vec<u32>,
}

impl View for GraphHandle {
    type V = GraphModel;

    closed spec fn view(&self) -> GraphModel {
        self.graph@
    }
}

impl GraphHandle {
    #[verifier::type_invariant]
    spec fn counts_match(self) -> bool {
        &&& slices_in_range(self.graph@)
        &&& self.dependent_counts@.len() == self.graph@.packages.len()
        &&& forall|t: int|
            0 <= t < self.dependent_counts@.len() ==> #[trigger] self.dependent_counts@[t]
                == saturated(dependent_count(self.graph@, t))
    }

    /// Opens the graph file held in `bytes` (bytes after the graph are ignored). The
    /// file's dependency ranges must lie inside its dependency list.
    pub fn from_bytes(bytes: &[u8]) -> (r: Result<GraphHandle, FormatError>)
        requires
            decode_graph(bytes@) matches Decoded::Ok((g, _)) ==> slices_in_range(g),
        ensures
            match decode_graph(bytes@) {
                Decoded::Ok((g, _)) => r matches Ok(h) && h@ == g,
                Decoded::Err((e, _)) => r == Err::<GraphHandle, FormatError>(e),
            },
    {
        let mut cursor = bytes;
        let graph = match StoredGraph::read_from(&mut cursor) {
            Ok(graph) => graph,
            Err(e) => return Err(e),
        };
        let dependent_counts = dependent_counts(&graph);
        Ok(GraphHandle { graph, dependent_counts })
    }

    pub fn package_count(&self) -> (r: usize)
        ensures
            r == self@.packages.len(),
    {
        self.graph.packages.len()
    }

    pub fn dependency_count(&self) -> (r: usize)
        ensures
            r == self@.dependencies.len(),
    {
        self.graph.dependencies.len()
    }
}


/// Package `i` has a dependency on package `focal`.
pub open spec fn depends_on(g: GraphModel, i: int, focal: int) -> bool {
    exists|k: int|
        0 <= k < owned_by(g, g.packages[i]).len() && #[trigger] owned_by(g, g.packages[i])[k].package_index
            == focal
}

/// Package `i` is a dependent of package `focal`: another package that depends on it.
pub open spec fn is_dependent(g: GraphModel, i: int, focal: int) -> bool {
    &&& 0 <= i < g.packages.len()
    &&& i != focal
    &&& depends_on(g, i, focal)
}

/// Dependents are listed by downloads, most first, then by crate id, then by position.
pub open spec fn dependent_before(a: (usize, StoredPackage), b: (usize, StoredPackage)) -> bool {
    ||| a.1.downloads > b.1.downloads
    ||| a.1.downloads == b.1.downloads && a.1.crate_id < b.1.crate_id
    ||| a.1.downloads == b.1.downloads && a.1.crate_id == b.1.crate_id && a.0 < b.0
}

/// `r` lists the first `limit` dependents of package `focal`, each with its package, in the
/// order of `dependent_before`.
pub open spec fn lists_dependents(g: GraphModel, focal: int, limit: usize, r: Seq<(usize, StoredPackage)>) -> bool {
    &&& r.len() <= limit
    &&& forall|k: int|
        0 <= k < r.len() ==> {
            &&& is_dependent(g, (#[trigger] r[k]).0 as int, focal)
            &&& r[k].1 == g.packages[r[k].0 as int]
        }
    &&& forall|a: int, b: int| 0 <= a < b < r.len() ==> dependent_before(#[trigger] r[a], #[trigger] r[b])
    &&& forall|i: int|
        #[trigger] is_dependent(g, i, focal) ==> {
            ||| exists|k: int| 0 <= k < r.len() && r[k].0 == i
            ||| r.len() == limit && forall|k: int|
                0 <= k < r.len() ==> dependent_before(#[trigger] r[k], (i as usize, g.packages[i]))
        }
}

/// The first `limit` dependents of package `focal_index`, each with its package, in the
/// order of `dependent_before`.
pub fn collect_dependents_sorted(graph: &StoredGraph, focal_index: usize, limit: usize) -> (r: Vec<
    (usize, StoredPackage),
>)
    requires
        slices_in_range(graph@),
    ensures
        lists_dependents(graph@, focal_index as int, limit, r@),
{
    let ghost g = graph@;
    let ghost focal = focal_index as int;
    let n = graph.packages.len();
    let mut found: Vec<(usize, StoredPackage)> = Vec::new();
    let mut p: usize = 0;
    while p < n
        invariant
            g == graph@,
            focal == focal_index as int,
            n == g.packages.len(),
            slices_in_range(g),
            p <= n,
            forall|k: int|
                0 <= k < found@.len() ==> {
                    &&& is_dependent(g, (#[trigger] found@[k]).0 as int, focal)
                    &&& found@[k].0 < p
                    &&& found@[k].1 == g.packages[found@[k].0 as int]
                },
            forall|a: int, b: int| 0 <= a < b < found@.len() ==> (#[trigger] found@[a]).0 < (
            #[trigger] found@[b]).0,
            forall|i: int|
                0 <= i < p && #[trigger] is_dependent(g, i, focal) ==> exists|k: int|
                    0 <= k < found@.len() && found@[k].0 == i,
        decreases n - p,
    {
        if p != focal_index {
            let package = &graph.packages[p];
            assert(range_end(g.packages[p as int]) <= g.dependencies.len());
            let deps = graph.dependency_slice(package);
            let mut hit = false;
            let mut k: usize = 0;
            while k < deps.len()
                invariant
                    focal == focal_index as int,
                    p < g.packages.len(),
                    k <= deps@.len(),
                    deps@ == owned_by(g, g.packages[p as int]),
                    hit ==> depends_on(g, p as int, focal),
                    !hit ==> forall|j: int| 0 <= j < k ==> (#[trigger] deps@[j]).package_index != focal,
                decreases deps@.len() - k,
            {
                if deps[k].package_index as usize == focal_index {
                    hit = true;
                    assert(owned_by(g, g.packages[p as int])[k as int].package_index == focal);
                }
                k = k + 1;
            }
            if hit {
                let ghost before = found@;
                found.push((p, *package));
                assert forall|i: int| 0 <= i < p + 1 && #[trigger] is_dependent(g, i, focal) implies exists|k: int|
                    0 <= k < found@.len() && found@[k].0 == i by {
                    if i == p {
                        assert(found@[before.len() as int].0 == i);
                    } else {
                        let k = choose|k: int| 0 <= k < before.len() && before[k].0 == i;
                        assert(found@[k].0 == i);
                    }
                }
            } else {
                assert forall|i: int| 0 <= i < p + 1 && #[trigger] is_dependent(g, i, focal) implies exists|k: int|
                    0 <= k < found@.len() && found@[k].0 == i by {
                    if i == p {
                        assert(depends_on(g, i, focal));
                        let j = choose|j: int|
                            0 <= j < owned_by(g, g.packages[i]).len() && #[trigger] owned_by(
                                g,
                                g.packages[i],
                            )[j].package_index == focal;
                        assert(deps@[j].package_index == focal);
                    }
                }
            }
        }
        p = p + 1;
    }
    let ghost unsorted = found@;
    sort_dependents(&mut found);
    let ghost sorted = found@;
    assert forall|a: int, b: int| 0 <= a < b < sorted.len() implies dependent_before(
        #[trigger] sorted[a],
        #[trigger] sorted[b],
    ) by {
        let q = choose|q: Seq<int>|
            permutes(q, unsorted.len()) && forall|i: int|
                0 <= i < unsorted.len() ==> #[trigger] sorted[i] == unsorted[q[i]];
        assert(sorted[a] == unsorted[q[a]]);
        assert(sorted[b] == unsorted[q[b]]);
        assert(q[a] != q[b]);
        if q[a] < q[b] {
            assert(unsorted[q[a]].0 < unsorted[q[b]].0);
        } else {
            assert(unsorted[q[b]].0 < unsorted[q[a]].0);
        }
        assert(!dependent_before(sorted[b], sorted[a]));
    }
    assert forall|i: int| #[trigger] is_dependent(g, i, focal) implies exists|k: int|
        0 <= k < sorted.len() && sorted[k].0 == i by {
        let q = choose|q: Seq<int>|
            permutes(q, unsorted.len()) && forall|i: int|
                0 <= i < unsorted.len() ==> #[trigger] sorted[i] == unsorted[q[i]];
        let m = choose|m: int| 0 <= m < unsorted.len() && unsorted[m].0 == i;
        assert(q.contains(m));
        let k = choose|k: int| 0 <= k < q.len() && q[k] == m;
        assert(sorted[k] == unsorted[m]);
    }
    assert forall|k: int| 0 <= k < sorted.len() implies {
        &&& is_dependent(g, (#[trigger] sorted[k]).0 as int, focal)
        &&& sorted[k].1 == g.packages[sorted[k].0 as int]
    } by {
        let q = choose|q: Seq<int>|
            permutes(q, unsorted.len()) && forall|i: int|
                0 <= i < unsorted.len() ==> #[trigger] sorted[i] == unsorted[q[i]];
        assert(sorted[k] == unsorted[q[k]]);
    }
    found.truncate(limit);
    let ghost r = found@;
    assert forall|i: int| #[trigger] is_dependent(g, i, focal) implies {
        ||| exists|k: int| 0 <= k < r.len() && r[k].0 == i
        ||| r.len() == limit && forall|k: int|
            0 <= k < r.len() ==> dependent_before(#[trigger] r[k], (i as usize, g.packages[i]))
    } by {
        let m = choose|m: int| 0 <= m < sorted.len() && sorted[m].0 == i;
        if m < r.len() {
            assert(r[m].0 == i);
        } else {
            assert forall|k: int| 0 <= k < r.len() implies dependent_before(
                #[trigger] r[k],
                (i as usize, g.packages[i]),
            ) by {
                assert(r[k] == sorted[k]);
                assert(sorted[m] == (i as usize, g.packages[i]));
            }
        }
    }
    found
}

/// How the explorer ranks dependency kinds when a crate names one target more than once:
/// normal, then build, then dev, then any other kind.
pub open spec fn kind_priority(kind: DependencyKind) -> u8 {
    match kind {
        DependencyKind::Normal => 0,
        DependencyKind::Build => 1,
        DependencyKind::Dev => 2,
        DependencyKind::Unknown(_) => 3,
    }
}

pub fn dependency_kind_priority(kind: DependencyKind) -> (r: u8)
    ensures
        r == kind_priority(kind),
{
    match kind {
        DependencyKind::Normal => 0,
        DependencyKind::Build => 1,
        DependencyKind::Dev => 2,
        DependencyKind::Unknown(_) => 3,
    }
}

/// The priority of the kind of `d`.
pub open spec fn dependency_priority(d: StoredDependency) -> u8 {
    kind_priority(kind_of_code(d.kind))
}

/// Among the first `upto` of `deps`, entry `chosen` is the one whose kind is kept for `target`:
/// the first dependency on `t` whose kind has the lowest priority.
pub open spec fn kept_for(deps: Seq<StoredDependency>, upto: int, target: int, chosen: int) -> bool {
    &&& 0 <= chosen < upto <= deps.len()
    &&& deps[chosen].package_index == target
    &&& forall|w: int|
        0 <= w < upto && (#[trigger] deps[w]).package_index == target ==> dependency_priority(
            deps[chosen],
        ) <= dependency_priority(deps[w])
    &&& forall|w: int|
        0 <= w < chosen && (#[trigger] deps[w]).package_index == target ==> dependency_priority(
            deps[chosen],
        ) < dependency_priority(deps[w])
}

/// Entry `at` of `deps` is the first dependency on `target`.
pub open spec fn first_at(deps: Seq<StoredDependency>, target: int, at: int) -> bool {
    &&& 0 <= at < deps.len()
    &&& deps[at].package_index == target
    &&& forall|m: int| 0 <= m < at ==> (#[trigger] deps[m]).package_index != target
}

/// Every target among the first `n` of `deps` occurs in `r`.
#[verifier::opaque]
pub open spec fn covers_targets(deps: Seq<StoredDependency>, n: int, r: Seq<(usize, DependencyKind)>) -> bool {
    forall|e: int|
        0 <= e < n ==> exists|a: int| 0 <= a < r.len() && r[a].0 as int == (#[trigger] deps[e]).package_index
}

/// Over the first `n` of `deps`: entry `a` of `r` first appears at `first[a]`, these
/// positions increase along `r`, its kind is that of `deps[chosen[a]]`, the entry that
/// `kept_for` picks, and every target appears in `r`.
pub open spec fn unique_targets_at(
    deps: Seq<StoredDependency>,
    n: int,
    r: Seq<(usize, DependencyKind)>,
    chosen: Seq<int>,
    first: Seq<int>,
) -> bool {
    &&& chosen.len() == r.len()
    &&& first.len() == r.len()
    &&& forall|a: int|
        0 <= a < r.len() ==> {
            &&& kept_for(deps, n, (#[trigger] r[a]).0 as int, chosen[a])
            &&& r[a].1 == kind_of_code(deps[chosen[a]].kind)
            &&& first_at(deps, r[a].0 as int, first[a])
            &&& first[a] < n
        }
    &&& forall|a: int, b: int| 0 <= a < b < r.len() ==> #[trigger] first[a] < #[trigger] first[b]
    &&& covers_targets(deps, n, r)
}

/// `r` lists each target of the first `n` of `deps` once, in the order the targets first
/// appear, each with the kind that `kept_for` picks.
pub open spec fn lists_unique_targets(
    deps: Seq<StoredDependency>,
    n: int,
    r: Seq<(usize, DependencyKind)>,
) -> bool {
    exists|chosen: Seq<int>, first: Seq<int>| unique_targets_at(deps, n, r, chosen, first)
}

/// Two entries of such a list have different targets.
proof fn lemma_targets_distinct(
    deps: Seq<StoredDependency>,
    n: int,
    r: Seq<(usize, DependencyKind)>,
    chosen: Seq<int>,
    first: Seq<int>,
    x: int,
    y: int,
)
    requires
        unique_targets_at(deps, n, r, chosen, first),
        0 <= x < r.len(),
        0 <= y < r.len(),
        x != y,
    ensures
        r[x].0 != r[y].0,
{
    assert(first_at(deps, r[x].0 as int, first[x]));
    assert(first_at(deps, r[y].0 as int, first[y]));
    if x < y {
        assert(first[x] < first[y]);
    } else {
        assert(first[y] < first[x]);
    }
    if r[x].0 == r[y].0 {
        if first[x] < first[y] {
            assert(deps[first[x]].package_index != r[y].0 as int);
        } else {
            assert(deps[first[y]].package_index != r[x].0 as int);
        }
    }
}

/// The kept entry for a target stays kept when the next dependency names another target or
/// a kind that does not rank higher.
proof fn lemma_kept_extends(ds: Seq<StoredDependency>, j: int, t: int, c: int)
    requires
        0 <= j < ds.len(),
        kept_for(ds, j, t, c),
        ds[j].package_index != t || dependency_priority(ds[c]) <= dependency_priority(ds[j]),
    ensures
        kept_for(ds, j + 1, t, c),
{
}

/// The next dependency becomes the kept one for its target when its kind ranks higher.
proof fn lemma_kept_replaced(ds: Seq<StoredDependency>, j: int, c: int)
    requires
        0 <= j < ds.len(),
        kept_for(ds, j, ds[j].package_index as int, c),
        dependency_priority(ds[j]) < dependency_priority(ds[c]),
    ensures
        kept_for(ds, j + 1, ds[j].package_index as int, j),
{
}

/// Another dependency on a listed target whose kind does not rank higher changes nothing.
#[verifier::spinoff_prover]
proof fn lemma_unique_targets_keep(
    ds: Seq<StoredDependency>,
    j: int,
    before: Seq<(usize, DependencyKind)>,
    chosen: Seq<int>,
    first: Seq<int>,
    a: int,
)
    requires
        0 <= j < ds.len(),
        unique_targets_at(ds, j, before, chosen, first),
        0 <= a < before.len(),
        before[a].0 as int == ds[j].package_index,
        !(kind_priority(kind_of_code(ds[j].kind)) < kind_priority(before[a].1)),
    ensures
        unique_targets_at(ds, j + 1, before, chosen, first),
{
    let t = before[a].0 as int;
    assert forall|x: int| 0 <= x < before.len() implies {
        &&& kept_for(ds, j + 1, (#[trigger] before[x]).0 as int, chosen[x])
        &&& before[x].1 == kind_of_code(ds[chosen[x]].kind)
        &&& first_at(ds, before[x].0 as int, first[x])
        &&& first[x] < j + 1
    } by {
        if x != a {
            lemma_targets_distinct(ds, j, before, chosen, first, x, a);
        }
        lemma_kept_extends(ds, j, before[x].0 as int, chosen[x]);
    }
    assert(covers_targets(ds, j + 1, before)) by {
        reveal(covers_targets);
        assert forall|e: int| 0 <= e < j + 1 implies exists|x: int|
            0 <= x < before.len() && before[x].0 as int == (#[trigger] ds[e]).package_index by {
            if e == j {
                assert(before[a].0 as int == ds[e].package_index);
            }
        }
    }
}

/// Another dependency on a listed target whose kind ranks higher takes its place.
#[verifier::spinoff_prover]
proof fn lemma_unique_targets_replace(
    ds: Seq<StoredDependency>,
    j: int,
    before: Seq<(usize, DependencyKind)>,
    chosen: Seq<int>,
    first: Seq<int>,
    a: int,
)
    requires
        0 <= j < ds.len(),
        unique_targets_at(ds, j, before, chosen, first),
        0 <= a < before.len(),
        before[a].0 as int == ds[j].package_index,
        kind_priority(kind_of_code(ds[j].kind)) < kind_priority(before[a].1),
    ensures
        unique_targets_at(
            ds,
            j + 1,
            before.update(a, (before[a].0, kind_of_code(ds[j].kind))),
            chosen.update(a, j),
            first,
        ),
{
    let t = before[a].0 as int;
    let after = before.update(a, (before[a].0, kind_of_code(ds[j].kind)));
    let chosen2 = chosen.update(a, j);
    assert(kept_for(ds, j, before[a].0 as int, chosen[a]));
    lemma_kept_replaced(ds, j, chosen[a]);
    assert forall|x: int| 0 <= x < after.len() implies {
        &&& kept_for(ds, j + 1, (#[trigger] after[x]).0 as int, chosen2[x])
        &&& after[x].1 == kind_of_code(ds[chosen2[x]].kind)
        &&& first_at(ds, after[x].0 as int, first[x])
        &&& first[x] < j + 1
    } by {
        if x != a {
            lemma_targets_distinct(ds, j, before, chosen, first, x, a);
            assert(after[x] == before[x]);
            assert(chosen2[x] == chosen[x]);
            lemma_kept_extends(ds, j, before[x].0 as int, chosen[x]);
        } else {
            assert(after[x].0 == before[a].0);
            assert(chosen2[x] == j);
        }
    }
    assert(forall|x: int, y: int| 0 <= x < y < after.len() ==> #[trigger] first[x] < #[trigger] first[y]);
    assert(covers_targets(ds, j + 1, after)) by {
        reveal(covers_targets);
        assert forall|e: int| 0 <= e < j + 1 implies exists|x: int|
            0 <= x < after.len() && after[x].0 as int == (#[trigger] ds[e]).package_index by {
            if e == j {
                assert(after[a].0 as int == ds[e].package_index);
            } else {
                let x = choose|x: int| 0 <= x < before.len() && before[x].0 as int == ds[e].package_index;
                assert(after[x].0 == before[x].0);
            }
        }
    }
}

/// A dependency on a target not yet listed adds it at the end.
#[verifier::spinoff_prover]
proof fn lemma_unique_targets_new(
    ds: Seq<StoredDependency>,
    j: int,
    before: Seq<(usize, DependencyKind)>,
    chosen: Seq<int>,
    first: Seq<int>,
)
    requires
        0 <= j < ds.len(),
        unique_targets_at(ds, j, before, chosen, first),
        forall|x: int| 0 <= x < before.len() ==> (#[trigger] before[x]).0 as int != ds[j].package_index,
    ensures
        unique_targets_at(
            ds,
            j + 1,
            before.push((ds[j].package_index as usize, kind_of_code(ds[j].kind))),
            chosen.push(j),
            first.push(j),
        ),
{
    let t = ds[j].package_index as int;
    let after = before.push((ds[j].package_index as usize, kind_of_code(ds[j].kind)));
    let chosen2 = chosen.push(j);
    let first2 = first.push(j);
    assert forall|m: int| 0 <= m < j implies (#[trigger] ds[m]).package_index != t by {
        reveal(covers_targets);
        let x = choose|x: int| 0 <= x < before.len() && before[x].0 as int == ds[m].package_index;
    }
    assert(kept_for(ds, j + 1, t, j));
    assert(first_at(ds, t, j));
    assert forall|x: int| 0 <= x < after.len() implies {
        &&& kept_for(ds, j + 1, (#[trigger] after[x]).0 as int, chosen2[x])
        &&& after[x].1 == kind_of_code(ds[chosen2[x]].kind)
        &&& first_at(ds, after[x].0 as int, first2[x])
        &&& first2[x] < j + 1
    } by {
        if x < before.len() {
            assert(after[x] == before[x]);
            assert(kept_for(ds, j, before[x].0 as int, chosen[x]));
        }
    }
    assert forall|x: int, y: int| 0 <= x < y < after.len() implies #[trigger] first2[x] < #[trigger] first2[y] by {
        if y < before.len() {
            assert(first[x] < first[y]);
        } else {
            assert(first_at(ds, before[x].0 as int, first[x]));
        }
    }
    assert(covers_targets(ds, j + 1, after)) by {
        reveal(covers_targets);
        assert forall|e: int| 0 <= e < j + 1 implies exists|x: int|
            0 <= x < after.len() && after[x].0 as int == (#[trigger] ds[e]).package_index by {
            if e == j {
                assert(after[before.len() as int].0 as int == ds[e].package_index);
            } else {
                let x = choose|x: int| 0 <= x < before.len() && before[x].0 as int == ds[e].package_index;
                assert(after[x] == before[x]);
            }
        }
    }
}

/// The packages that `package` depends on, each once, in the order they first appear among
/// its dependencies, each with the kind of highest priority it is named with.
pub fn collect_unique_dependencies(graph: &StoredGraph, package: &StoredPackage) -> (r: Vec<
    (usize, DependencyKind),
>)
    requires
        range_end(*package) <= graph@.dependencies.len(),
    ensures
        lists_unique_targets(owned_by(graph@, *package), owned_by(graph@, *package).len() as int, r@),
{
    let deps = graph.dependency_slice(package);
    let ghost ds = deps@;
    let mut unique: Vec<(usize, DependencyKind)> = Vec::new();
    let ghost mut chosen: Seq<int> = Seq::empty();
    let ghost mut first: Seq<int> = Seq::empty();
    assert(covers_targets(ds, 0, unique@)) by {
        reveal(covers_targets);
    }
    let mut j: usize = 0;
    while j < deps.len()
        invariant
            ds == deps@,
            j <= ds.len(),
            unique_targets_at(ds, j as int, unique@, chosen, first),
        decreases ds.len() - j,
    {
        let target = deps[j].package_index as usize;
        let kind = deps[j].kind();
        let ghost before = unique@;
        let mut a: usize = 0;
        while a < unique.len() && unique[a].0 != target
            invariant
                unique@ == before,
                a <= before.len(),
                forall|x: int| 0 <= x < a ==> (#[trigger] before[x]).0 != target,
            decreases before.len() - a,
        {
            a = a + 1;
        }
        if a < unique.len() {
            let kept = unique[a].1;
            if dependency_kind_priority(kind) < dependency_kind_priority(kept) {
                unique.set(a, (target, kind));
                proof {
                    lemma_unique_targets_replace(ds, j as int, before, chosen, first, a as int);
                    chosen = chosen.update(a as int, j as int);
                }
            } else {
                proof {
                    lemma_unique_targets_keep(ds, j as int, before, chosen, first, a as int);
                }
            }
        } else {
            unique.push((target, kind));
            proof {
                lemma_unique_targets_new(ds, j as int, before, chosen, first);
                chosen = chosen.push(j as int);
                first = first.push(j as int);
            }
        }
        j = j + 1;
    }
    assert(unique_targets_at(ds, ds.len() as int, unique@, chosen, first));
    unique
}


// ---------------------------------------------------------------------------
// Name search.
// ---------------------------------------------------------------------------

/// How the name search ranks a name against a query, both lowercased: 0 for the same text,
/// 1 when the query starts the name, 2 when it occurs inside it, `None` otherwise.
pub open spec fn match_rank(name: Seq<char>, query: Seq<char>) -> Option<u8> {
    if name == query {
        Some(0u8)
    } else if query.is_prefix_of(name) {
        Some(1u8)
    } else if occurs_in(name, query) {
        Some(2u8)
    } else {
        None
    }
}

/// Package `i` has a name in the string pool.
pub open spec fn has_name(g: GraphModel, i: int) -> bool {
    &&& 0 <= i < g.packages.len()
    &&& (g.packages[i].name as int) < g.strings.len()
}

pub open spec fn name_of(g: GraphModel, i: int) -> Seq<char> {
    g.strings[g.packages[i].name as int]
}

/// The name of package `i` with ASCII capitals made small.
pub open spec fn folded_name(g: GraphModel, i: int) -> Seq<char> {
    ascii_lowercase_chars(name_of(g, i))
}

/// The search for `q` (trimmed and lowercased) finds package `i`.
pub open spec fn search_hit(g: GraphModel, q: Seq<char>, i: int) -> bool {
    &&& has_name(g, i)
    &&& match_rank(folded_name(g, i), q) is Some
}

pub open spec fn search_rank(g: GraphModel, q: Seq<char>, i: int) -> u8 {
    match_rank(folded_name(g, i), q)->0
}

/// Among the first `n` packages, `i` is the one found for its lowercased name: the one with
/// most downloads, and of equals the first.
pub open spec fn stands_for_name(g: GraphModel, q: Seq<char>, n: int, i: int) -> bool {
    &&& 0 <= i < n
    &&& search_hit(g, q, i)
    &&& forall|j: int|
        0 <= j < n && #[trigger] search_hit(g, q, j) && folded_name(g, j) == folded_name(g, i) ==> {
            &&& g.packages[j].downloads <= g.packages[i].downloads
            &&& j < i ==> g.packages[j].downloads < g.packages[i].downloads
        }
}

/// Search results are listed by rank, then by downloads, most first, then by name.
pub open spec fn search_before(g: GraphModel, q: Seq<char>, i: int, j: int) -> bool {
    ||| search_rank(g, q, i) < search_rank(g, q, j)
    ||| search_rank(g, q, i) == search_rank(g, q, j) && g.packages[i].downloads
        > g.packages[j].downloads
    ||| search_rank(g, q, i) == search_rank(g, q, j) && g.packages[i].downloads
        == g.packages[j].downloads && text_order(name_of(g, i), name_of(g, j)) == Order::Less
}

/// The order of search entries (rank, downloads, name, package), as the search sorts them.
pub open spec fn entry_before(a: (u8, u64, String, usize), b: (u8, u64, String, usize)) -> bool {
    ||| a.0 < b.0
    ||| a.0 == b.0 && a.1 > b.1
    ||| a.0 == b.0 && a.1 == b.1 && text_order(a.2@, b.2@) == Order::Less
}

/// Entry `e` holds the rank, downloads, name and position of a package the search finds.
pub open spec fn describes_hit(g: GraphModel, q: Seq<char>, e: (u8, u64, String, usize)) -> bool {
    &&& search_hit(g, q, e.3 as int)
    &&& e.0 == search_rank(g, q, e.3 as int)
    &&& e.1 == g.packages[e.3 as int].downloads
    &&& e.2@ == name_of(g, e.3 as int)
}

/// After the first `n` packages: each entry is the package found for its lowercased name,
/// `index` maps each lowercased name to its entry, and every package found so far has its
/// lowercased name in `index`.
pub open spec fn search_state(
    g: GraphModel,
    q: Seq<char>,
    n: int,
    entries: Seq<(u8, u64, String, usize)>,
    index: Map<Seq<char>, usize>,
) -> bool {
    &&& forall|e: int|
        0 <= e < entries.len() ==> {
            &&& describes_hit(g, q, #[trigger] entries[e])
            &&& stands_for_name(g, q, n, entries[e].3 as int)
            &&& index.contains_key(folded_name(g, entries[e].3 as int))
            &&& index[folded_name(g, entries[e].3 as int)] == e
        }
    &&& forall|l: Seq<char>|
        #[trigger] index.contains_key(l) ==> {
            &&& (index[l] as int) < entries.len()
            &&& folded_name(g, entries[index[l] as int].3 as int) == l
        }
    &&& forall|j: int| 0 <= j < n && #[trigger] search_hit(g, q, j) ==> index.contains_key(folded_name(g, j))
}


/// Nothing is found before the first package.
proof fn lemma_search_start(g: GraphModel, q: Seq<char>)
    ensures
        search_state(g, q, 0, Seq::empty(), Map::empty()),
{
}

/// A package the search does not find changes nothing.
#[verifier::spinoff_prover]
proof fn lemma_search_miss(
    g: GraphModel,
    q: Seq<char>,
    n: int,
    entries: Seq<(u8, u64, String, usize)>,
    index: Map<Seq<char>, usize>,
)
    requires
        0 <= n < g.packages.len(),
        search_state(g, q, n, entries, index),
        !search_hit(g, q, n),
    ensures
        search_state(g, q, n + 1, entries, index),
{
    assert forall|e: int| 0 <= e < entries.len() implies stands_for_name(
        g,
        q,
        n + 1,
        (#[trigger] entries[e]).3 as int,
    ) by {
        assert(stands_for_name(g, q, n, entries[e].3 as int));
    }
}

/// A found package whose name is listed and which does not beat the listed one changes
/// nothing.
#[verifier::spinoff_prover]
proof fn lemma_search_keep(
    g: GraphModel,
    q: Seq<char>,
    n: int,
    entries: Seq<(u8, u64, String, usize)>,
    index: Map<Seq<char>, usize>,
)
    requires
        0 <= n < g.packages.len(),
        search_state(g, q, n, entries, index),
        search_hit(g, q, n),
        index.contains_key(folded_name(g, n)),
        !(search_rank(g, q, n) < entries[index[folded_name(g, n)] as int].0 || (search_rank(g, q, n)
            == entries[index[folded_name(g, n)] as int].0 && g.packages[n].downloads
            > entries[index[folded_name(g, n)] as int].1)),
    ensures
        search_state(g, q, n + 1, entries, index),
{
    let pos = index[folded_name(g, n)] as int;
    let rep = entries[pos].3 as int;
    assert(describes_hit(g, q, entries[pos]));
    assert(folded_name(g, rep) == folded_name(g, n));
    assert forall|e: int| 0 <= e < entries.len() implies stands_for_name(
        g,
        q,
        n + 1,
        (#[trigger] entries[e]).3 as int,
    ) by {
        assert(stands_for_name(g, q, n, entries[e].3 as int));
    }
}

/// A found package whose name is listed and which beats the listed one takes its place.
#[verifier::spinoff_prover]
proof fn lemma_search_replace(
    g: GraphModel,
    q: Seq<char>,
    n: int,
    entries: Seq<(u8, u64, String, usize)>,
    index: Map<Seq<char>, usize>,
    entry: (u8, u64, String, usize),
)
    requires
        0 <= n < g.packages.len(),
        search_state(g, q, n, entries, index),
        search_hit(g, q, n),
        index.contains_key(folded_name(g, n)),
        search_rank(g, q, n) < entries[index[folded_name(g, n)] as int].0 || (search_rank(g, q, n)
            == entries[index[folded_name(g, n)] as int].0 && g.packages[n].downloads
            > entries[index[folded_name(g, n)] as int].1),
        describes_hit(g, q, entry),
        entry.3 == n,
    ensures
        search_state(g, q, n + 1, entries.update(index[folded_name(g, n)] as int, entry), index),
{
    let pos = index[folded_name(g, n)] as int;
    let rep = entries[pos].3 as int;
    let after = entries.update(pos, entry);
    assert(describes_hit(g, q, entries[pos]));
    assert(folded_name(g, rep) == folded_name(g, n));
    assert(stands_for_name(g, q, n, rep));
    assert(g.packages[rep].downloads < g.packages[n].downloads);
    assert forall|e: int| 0 <= e < after.len() implies {
        &&& describes_hit(g, q, #[trigger] after[e])
        &&& stands_for_name(g, q, n + 1, after[e].3 as int)
        &&& index.contains_key(folded_name(g, after[e].3 as int))
        &&& index[folded_name(g, after[e].3 as int)] == e
    } by {
        if e == pos {
            assert forall|j: int|
                0 <= j < n + 1 && #[trigger] search_hit(g, q, j) && folded_name(g, j) == folded_name(
                    g,
                    n,
                ) implies {
                &&& g.packages[j].downloads <= g.packages[n].downloads
                &&& j < n ==> g.packages[j].downloads < g.packages[n].downloads
            } by {
                if j < n {
                    assert(folded_name(g, j) == folded_name(g, rep));
                }
            }
        } else {
            assert(after[e] == entries[e]);
            assert(stands_for_name(g, q, n, entries[e].3 as int));
            assert(folded_name(g, entries[e].3 as int) != folded_name(g, n));
        }
    }
    assert forall|l: Seq<char>| #[trigger] index.contains_key(l) implies {
        &&& (index[l] as int) < after.len()
        &&& folded_name(g, after[index[l] as int].3 as int) == l
    } by {
        if index[l] as int != pos {
            assert(after[index[l] as int] == entries[index[l] as int]);
        }
    }
}

/// A found package whose name is not listed yet is added at the end.
#[verifier::spinoff_prover]
proof fn lemma_search_new(
    g: GraphModel,
    q: Seq<char>,
    n: int,
    entries: Seq<(u8, u64, String, usize)>,
    index: Map<Seq<char>, usize>,
    entry: (u8, u64, String, usize),
)
    requires
        0 <= n < g.packages.len(),
        search_state(g, q, n, entries, index),
        search_hit(g, q, n),
        !index.contains_key(folded_name(g, n)),
        describes_hit(g, q, entry),
        entry.3 == n,
        entries.len() < usize::MAX,
    ensures
        search_state(
            g,
            q,
            n + 1,
            entries.push(entry),
            index.insert(folded_name(g, n), entries.len() as usize),
        ),
{
    let after = entries.push(entry);
    let index2 = index.insert(folded_name(g, n), entries.len() as usize);
    assert forall|e: int| 0 <= e < after.len() implies {
        &&& describes_hit(g, q, #[trigger] after[e])
        &&& stands_for_name(g, q, n + 1, after[e].3 as int)
        &&& index2.contains_key(folded_name(g, after[e].3 as int))
        &&& index2[folded_name(g, after[e].3 as int)] == e
    } by {
        if e == entries.len() {
            assert forall|j: int|
                0 <= j < n + 1 && #[trigger] search_hit(g, q, j) && folded_name(g, j) == folded_name(
                    g,
                    n,
                ) implies {
                &&& g.packages[j].downloads <= g.packages[n].downloads
                &&& j < n ==> g.packages[j].downloads < g.packages[n].downloads
            } by {
                if j < n {
                    assert(index.contains_key(folded_name(g, j)));
                }
            }
        } else {
            assert(after[e] == entries[e]);
            assert(stands_for_name(g, q, n, entries[e].3 as int));
            assert(index.contains_key(folded_name(g, entries[e].3 as int)));
        }
    }
    assert forall|l: Seq<char>| #[trigger] index2.contains_key(l) implies {
        &&& (index2[l] as int) < after.len()
        &&& folded_name(g, after[index2[l] as int].3 as int) == l
    } by {
        if l != folded_name(g, n) {
            assert(index.contains_key(l));
            assert(after[index[l] as int] == entries[index[l] as int]);
        }
    }
}


/// For each lowercased name that the search for `query` (trimmed and lowercased) finds,
/// the entry of the package found for it, in the order the names first occur.
fn collect_search_entries(graph: &StoredGraph, query: &str) -> (r: Vec<(u8, u64, String, usize)>)
    ensures
        exists|index: Map<Seq<char>, usize>|
            search_state(graph@, query@, graph@.packages.len() as int, r@, index),
{
    let ghost g = graph@;
    let ghost q = query@;
    let mut entries: Vec<(u8, u64, String, usize)> = Vec::new();
    let mut index: StringHashMap<usize> = StringHashMap::new();
    proof {
        lemma_search_start(g, q);
    }
    let mut i: usize = 0;
    while i < graph.packages.len()
        invariant
            g == graph@,
            q == query@,
            i <= g.packages.len(),
            entries@.len() <= i,
            search_state(g, q, i as int, entries@, index@),
        decreases g.packages.len() - i,
    {
        let package = &graph.packages[i];
        match graph.resolve(package.name) {
            None => {
                proof {
                    lemma_search_miss(g, q, i as int, entries@, index@);
                }
            },
            Some(name) => {
                let lower = ascii_lowercase(name);
                let rank: u8 = if text_equals(lower.as_str(), query) {
                    0
                } else if text_starts_with(lower.as_str(), query) {
                    1
                } else if text_contains(lower.as_str(), query) {
                    2
                } else {
                    3
                };
                assert(lower@ == folded_name(g, i as int));
                if rank == 3 {
                    proof {
                        lemma_search_miss(g, q, i as int, entries@, index@);
                    }
                } else {
                    assert(search_hit(g, q, i as int));
                    assert(rank == search_rank(g, q, i as int));
                    match index.get(lower.as_str()) {
                        Some(found) => {
                            let pos = *found;
                            if rank < entries[pos].0 || (rank == entries[pos].0 && package.downloads
                                > entries[pos].1) {
                                let entry = (rank, package.downloads, name.to_owned(), i);
                                proof {
                                    lemma_search_replace(g, q, i as int, entries@, index@, entry);
                                }
                                entries.set(pos, entry);
                            } else {
                                proof {
                                    lemma_search_keep(g, q, i as int, entries@, index@);
                                }
                            }
                        },
                        None => {
                            let entry = (rank, package.downloads, name.to_owned(), i);
                            proof {
                                lemma_search_new(g, q, i as int, entries@, index@, entry);
                            }
                            let pos = entries.len();
                            entries.push(entry);
                            index.insert(lower, pos);
                        },
                    }
                }
            },
        }
        i = i + 1;
    }
    entries
}


/// Over `g`, `names` lists the names of the packages `found`, at most `limit` of them: each
/// is the package found for its lowercased name by the search for `q`, they come in the
/// order of `search_before`, and a package left out comes after all of them in a full list.
pub open spec fn search_lists(
    g: GraphModel,
    q: Seq<char>,
    limit: usize,
    found: Seq<int>,
    names: Seq<Seq<char>>,
) -> bool {
    &&& found.len() == names.len()
    &&& names.len() <= limit
    &&& forall|k: int|
        0 <= k < found.len() ==> {
            &&& stands_for_name(g, q, g.packages.len() as int, #[trigger] found[k])
            &&& names[k] == name_of(g, found[k])
        }
    &&& forall|a: int, b: int| 0 <= a < b < found.len() ==> search_before(g, q, #[trigger] found[a], #[trigger] found[b])
    &&& forall|i: int|
        #[trigger] stands_for_name(g, q, g.packages.len() as int, i) ==> {
            ||| found.contains(i)
            ||| found.len() == limit && forall|k: int| 0 <= k < found.len() ==> search_before(g, q, #[trigger] found[k], i)
        }
}

/// The answer of the name search for `query` with at most `limit` results: nothing for a
/// blank query or a zero limit, else the list `search_lists` describes for the query
/// trimmed and lowercased.
pub open spec fn search_answer(g: GraphModel, query: Seq<char>, limit: usize, names: Seq<Seq<char>>) -> bool {
    let q = ascii_lowercase_chars(trimmed(query));
    if q.len() == 0 || limit == 0 {
        names.len() == 0
    } else {
        exists|found: Seq<int>| search_lists(g, q, limit, found, names)
    }
}

/// Two packages found for the same lowercased name are the same package.
proof fn lemma_stands_for_unique(g: GraphModel, q: Seq<char>, n: int, i: int, k: int)
    requires
        stands_for_name(g, q, n, i),
        stands_for_name(g, q, n, k),
        folded_name(g, i) == folded_name(g, k),
    ensures
        i == k,
{
    assert(search_hit(g, q, i));
    assert(search_hit(g, q, k));
}

/// Sorting the entries of a finished search lists every found package once, in the order of
/// `search_before`.
proof fn lemma_sorted_search(
    g: GraphModel,
    q: Seq<char>,
    entries: Seq<(u8, u64, String, usize)>,
    index: Map<Seq<char>, usize>,
    sorted: Seq<(u8, u64, String, usize)>,
)
    requires
        search_state(g, q, g.packages.len() as int, entries, index),
        sorted.len() == entries.len(),
        exists|p: Seq<int>|
            permutes(p, entries.len()) && forall|i: int|
                0 <= i < entries.len() ==> #[trigger] sorted[i] == entries[p[i]],
        forall|i: int, j: int| 0 <= i < j < sorted.len() ==> !entry_before(#[trigger] sorted[j], #[trigger] sorted[i]),
    ensures
        forall|k: int|
            0 <= k < sorted.len() ==> {
                &&& describes_hit(g, q, #[trigger] sorted[k])
                &&& stands_for_name(g, q, g.packages.len() as int, sorted[k].3 as int)
            },
        forall|a: int, b: int|
            0 <= a < b < sorted.len() ==> search_before(g, q, (#[trigger] sorted[a]).3 as int, (#[trigger] sorted[b]).3 as int),
        forall|i: int|
            #[trigger] stands_for_name(g, q, g.packages.len() as int, i) ==> exists|m: int|
                0 <= m < sorted.len() && sorted[m].3 == i,
{
    let n = g.packages.len() as int;
    let p = choose|p: Seq<int>|
        permutes(p, entries.len()) && forall|i: int| 0 <= i < entries.len() ==> #[trigger] sorted[i] == entries[p[i]];
    assert forall|k: int| 0 <= k < sorted.len() implies {
        &&& describes_hit(g, q, #[trigger] sorted[k])
        &&& stands_for_name(g, q, n, sorted[k].3 as int)
    } by {
        assert(sorted[k] == entries[p[k]]);
    }
    assert forall|a: int, b: int| 0 <= a < b < sorted.len() implies search_before(
        g,
        q,
        (#[trigger] sorted[a]).3 as int,
        (#[trigger] sorted[b]).3 as int,
    ) by {
        assert(sorted[a] == entries[p[a]]);
        assert(sorted[b] == entries[p[b]]);
        assert(p[a] != p[b]);
        let fa = folded_name(g, sorted[a].3 as int);
        let fb = folded_name(g, sorted[b].3 as int);
        assert(index[fa] == p[a]);
        assert(index[fb] == p[b]);
        assert(sorted[a].2@ != sorted[b].2@);
        crate::text::lemma_text_order_antisymmetric(sorted[a].2@, sorted[b].2@);
        crate::text::lemma_text_order_antisymmetric(sorted[b].2@, sorted[a].2@);
        assert(!entry_before(sorted[b], sorted[a]));
        assert(entry_before(sorted[a], sorted[b]));
    }
    assert forall|i: int| #[trigger] stands_for_name(g, q, n, i) implies exists|m: int|
        0 <= m < sorted.len() && sorted[m].3 == i by {
        let f = folded_name(g, i);
        assert(index.contains_key(f));
        let e = index[f] as int;
        assert(describes_hit(g, q, entries[e]));
        assert(stands_for_name(g, q, n, entries[e].3 as int));
        lemma_stands_for_unique(g, q, n, i, entries[e].3 as int);
        assert(p.contains(e));
        let m = choose|m: int| 0 <= m < p.len() && p[m] == e;
        assert(sorted[m] == entries[e]);
    }
}

impl GraphHandle {
    /// The names of the packages that match `query`, trimmed and ignoring ASCII case,
    /// best first, at most `limit` of them: an exact name, then names that start with the
    /// query, then names that contain it; among equals more downloads first, then by name.
    /// Of several packages whose names differ only in ASCII case, the one with most
    /// downloads (the first of equals) stands for them.
    pub fn search_prefix(&self, query: &str, limit: usize) -> (r: Vec<String>)
        ensures
            search_answer(self@, query@, limit, r@.map_values(|s: String| s@)),
    {
        let trimmed_query = trim_text(query);
        let q = ascii_lowercase(trimmed_query);
        let ghost g = self@;
        let ghost qs = q@;
        if q.as_str().is_empty() || limit == 0 {
            let none: Vec<String> = Vec::new();
            assert(none@.map_values(|s: String| s@) =~= Seq::<Seq<char>>::empty());
            return none;
        }
        let mut entries = collect_search_entries(&self.graph, q.as_str());
        let ghost index = choose|index: Map<Seq<char>, usize>|
            search_state(g, qs, g.packages.len() as int, entries@, index);
        let ghost unsorted = entries@;
        sort_search_entries(&mut entries);
        proof {
            lemma_sorted_search(g, qs, unsorted, index, entries@);
        }
        let ghost sorted = entries@;
        let mut names: Vec<String> = Vec::new();
        let mut k: usize = 0;
        while k < entries.len() && k < limit
            invariant
                entries@ == sorted,
                k <= sorted.len(),
                k <= limit,
                names@.len() == k,
                forall|x: int| 0 <= x < k ==> (#[trigger] names@[x])@ == sorted[x].2@,
            decreases sorted.len() - k,
        {
            names.push(entries[k].2.clone());
            k = k + 1;
        }
        let ghost found = sorted.take(k as int).map_values(|e: (u8, u64, String, usize)| e.3 as int);
        let ghost listed = names@.map_values(|s: String| s@);
        assert forall|i: int| #[trigger] stands_for_name(g, qs, g.packages.len() as int, i) implies {
            ||| found.contains(i)
            ||| found.len() == limit && forall|x: int| 0 <= x < found.len() ==> search_before(g, qs, #[trigger] found[x], i)
        } by {
            let m = choose|m: int| 0 <= m < sorted.len() && sorted[m].3 == i;
            if m < k {
                assert(found[m] == i);
            } else {
                assert forall|x: int| 0 <= x < found.len() implies search_before(g, qs, #[trigger] found[x], i) by {
                    assert(found[x] == sorted[x].3 as int);
                    assert(search_before(g, qs, sorted[x].3 as int, sorted[m].3 as int));
                }
            }
        }
        assert(search_lists(g, qs, limit, found, listed));
        names
    }
}


// ---------------------------------------------------------------------------
// Crate summaries.
// ---------------------------------------------------------------------------

/// The pooled string at `index`, or `fallback` when there is none.
pub open spec fn resolved_or(g: GraphModel, index: u32, fallback: Seq<char>) -> Seq<char> {
    if (index as int) < g.strings.len() {
        g.strings[index as int]
    } else {
        fallback
    }
}

/// The summary line of dependency `d`, whose target is a package: its name, requirement
/// and kind, its flags, and the platform it is limited to, if any.
pub open spec fn dependency_line(g: GraphModel, d: StoredDependency) -> Seq<char> {
    let target = g.packages[d.package_index as int];
    "- "@ + resolved_or(g, target.name, "<missing>"@) + " "@ + resolved_or(g, d.req, "*"@) + " ["@
        + kind_name(kind_of_code(d.kind)) + "]"@ + (if stored_optional(d.flags) {
        " optional"@
    } else {
        Seq::empty()
    }) + (if stored_uses_default_features(d.flags) {
        " default-features"@
    } else {
        Seq::empty()
    }) + (if d.target == NO_STRING {
        Seq::empty()
    } else {
        " target="@ + resolved_or(g, d.target, "<missing>"@)
    })
}

/// The lines of `deps`, each after a line break; a dependency whose target is not a
/// package gets no line.
pub open spec fn dependency_lines(g: GraphModel, deps: Seq<StoredDependency>) -> Seq<char>
    decreases deps.len(),
{
    if deps.len() == 0 {
        Seq::empty()
    } else {
        dependency_lines(g, deps.drop_last()) + if (deps.last().package_index as int) < g.packages.len() {
            "\n"@ + dependency_line(g, deps.last())
        } else {
            Seq::empty()
        }
    }
}

/// The first lines of the summary of package `i`, shown under `name`.
pub open spec fn summary_head(g: GraphModel, name: Seq<char>, i: int, dependents: u32) -> Seq<char> {
    let p = g.packages[i];
    name + " v"@ + resolved_or(g, p.version, "<missing>"@) + "\ncrate id: "@ + decimal_text(
        p.crate_id as nat,
    ) + "\ndownloads: "@ + decimal_text(p.downloads as nat) + "\ndirect dependencies: "@
        + decimal_text(p.dependency_count as nat) + "\ndependents in snapshot: "@ + decimal_text(
        dependents as nat,
    )
}

/// How many dependency lines a summary shows at most.
pub const SUMMARY_DEPENDENCY_LINES: u32 = 20u32;

/// The summary of package `i`, shown under `name`: name and version, crate id, downloads,
/// the numbers of dependencies and dependents, a line for each of its first twenty
/// dependencies, and how many more there are.
pub open spec fn summary_text(g: GraphModel, name: Seq<char>, i: int, dependents: u32) -> Seq<char> {
    let p = g.packages[i];
    let deps = owned_by(g, p);
    let shown = if p.dependency_count < SUMMARY_DEPENDENCY_LINES {
        deps
    } else {
        deps.take(SUMMARY_DEPENDENCY_LINES as int)
    };
    summary_head(g, name, i, dependents) + dependency_lines(g, shown) + if p.dependency_count
        > SUMMARY_DEPENDENCY_LINES {
        "\n... "@ + decimal_text((p.dependency_count - SUMMARY_DEPENDENCY_LINES) as nat) + " more"@
    } else {
        Seq::empty()
    }
}

/// The lines of the first `k` of `deps` begin the lines of the first `m`.
proof fn lemma_dependency_lines_prefix(g: GraphModel, deps: Seq<StoredDependency>, k: int, m: int)
    requires
        0 <= k <= m <= deps.len(),
    ensures
        dependency_lines(g, deps.take(k)).is_prefix_of(dependency_lines(g, deps.take(m))),
    decreases m - k,
{
    if k < m {
        lemma_dependency_lines_prefix(g, deps, k, m - 1);
        assert(deps.take(m).drop_last() =~= deps.take(m - 1));
        let a = dependency_lines(g, deps.take(k));
        let b = dependency_lines(g, deps.take(m - 1));
        let c = dependency_lines(g, deps.take(m));
        assert(c.subrange(0, b.len() as int) =~= b);
        assert(c.subrange(0, a.len() as int) =~= b.subrange(0, a.len() as int));
    } else {
        assert(dependency_lines(g, deps.take(k)).subrange(0, dependency_lines(g, deps.take(k)).len() as int)
            =~= dependency_lines(g, deps.take(k)));
    }
}

/// A summary shows its dependency lines from the first dependency on, in order: for every
/// `k` up to twenty and up to the number of dependencies, the head followed by the lines
/// of the package's first `k` dependencies begins the summary.
pub proof fn lemma_summary_shows_first_dependencies(
    g: GraphModel,
    name: Seq<char>,
    i: int,
    dependents: u32,
    k: int,
)
    requires
        slices_in_range(g),
        0 <= i < g.packages.len(),
        0 <= k <= 20,
        k <= g.packages[i].dependency_count,
    ensures
        (summary_head(g, name, i, dependents) + dependency_lines(g, owned_by(g, g.packages[i]).take(k))).is_prefix_of(
            summary_text(g, name, i, dependents),
        ),
{
    let p = g.packages[i];
    let deps = owned_by(g, p);
    assert(range_end(p) <= g.dependencies.len());
    assert(deps.len() == p.dependency_count);
    let m: int = if p.dependency_count < SUMMARY_DEPENDENCY_LINES {
        p.dependency_count as int
    } else {
        SUMMARY_DEPENDENCY_LINES as int
    };
    assert(deps.take(deps.len() as int) =~= deps);
    lemma_dependency_lines_prefix(g, deps, k, m);
    let head = summary_head(g, name, i, dependents);
    let a = dependency_lines(g, deps.take(k));
    let b = dependency_lines(g, deps.take(m));
    let text = summary_text(g, name, i, dependents);
    let tail: Seq<char> = if p.dependency_count > SUMMARY_DEPENDENCY_LINES {
        "\n... "@ + decimal_text((p.dependency_count - SUMMARY_DEPENDENCY_LINES) as nat) + " more"@
    } else {
        Seq::empty()
    };
    assert(text == head + b + tail);
    assert((head + a).len() <= text.len());
    assert(text.subrange(0, (head + a).len() as int) =~= head + a) by {
        assert(b.subrange(0, a.len() as int) =~= a);
        assert forall|x: int| 0 <= x < (head + a).len() implies text[x] == (head + a)[x] by {
            if x >= head.len() {
                assert(b[x - head.len()] == a[x - head.len()]);
            }
        }
    }
}

/// The pooled string at `index`, or `fallback`.
fn resolve_or<'a>(graph: &'a StoredGraph, index: u32, fallback: &'a str) -> (r: &'a str)
    ensures
        r@ == resolved_or(graph@, index, fallback@),
{
    match graph.resolve(index) {
        Some(text) => text,
        None => fallback,
    }
}

/// The summary line of `dependency`, whose target is a package.
fn dependency_text(graph: &StoredGraph, dependency: &StoredDependency) -> (r: String)
    requires
        (dependency.package_index as int) < graph@.packages.len(),
    ensures
        r@ == dependency_line(graph@, *dependency),
{
    let target_package = &graph.packages[dependency.package_index as usize];
    let mut line = String::new();
    push_text(&mut line, "- ");
    push_text(&mut line, resolve_or(graph, target_package.name, "<missing>"));
    push_text(&mut line, " ");
    push_text(&mut line, resolve_or(graph, dependency.req, "*"));
    push_text(&mut line, " [");
    push_text(&mut line, dependency.kind().as_str());
    push_text(&mut line, "]");
    let none = "";
    proof {
        reveal_strlit("");
    }
    push_text(&mut line, if dependency.optional() { " optional" } else { none });
    push_text(&mut line, if dependency.uses_default_features() { " default-features" } else { none });
    if dependency.target == NO_STRING {
        push_text(&mut line, none);
    } else {
        push_text(&mut line, " target=");
        push_text(&mut line, resolve_or(graph, dependency.target, "<missing>"));
    }
    assert(line@ =~= dependency_line(graph@, *dependency));
    line
}

impl GraphHandle {
    /// A text summary of the package that `package_by_name` finds for `name`: see
    /// `summary_text`. `None` when no package has that name.
    pub fn crate_summary(&self, name: &str) -> (r: Option<String>)
        ensures
            r is Some <==> trimmed(name@).len() > 0 && exists|j: int|
                0 <= j < self@.packages.len() && package_named(
                    self@,
                    #[trigger] self@.packages[j],
                    trimmed(name@),
                ),
            r matches Some(text) ==> exists|i: int|
                is_best_named(self@, trimmed(name@), i) && text@ == summary_text(
                    self@,
                    name@,
                    i,
                    saturated(dependent_count(self@, i)),
                ),
    {
        proof {
            use_type_invariant(self);
        }
        let ghost g = self@;
        let (index, package) = match self.graph.package_by_name(name) {
            Some(found) => found,
            None => return None,
        };
        let version = resolve_or(&self.graph, package.version, "<missing>");
        let dependents = self.dependent_counts[index];
        let mut text = String::new();
        push_text(&mut text, name);
        push_text(&mut text, " v");
        push_text(&mut text, version);
        push_text(&mut text, "\ncrate id: ");
        push_text(&mut text, decimal_u64(package.crate_id as u64).as_str());
        push_text(&mut text, "\ndownloads: ");
        push_text(&mut text, decimal_u64(package.downloads).as_str());
        push_text(&mut text, "\ndirect dependencies: ");
        push_text(&mut text, decimal_u64(package.dependency_count as u64).as_str());
        push_text(&mut text, "\ndependents in snapshot: ");
        push_text(&mut text, decimal_u64(dependents as u64).as_str());
        let ghost head = text@;
        assert(head == summary_head(g, name@, index as int, dependents));
        assert(range_end(g.packages[index as int]) <= g.dependencies.len());
        let deps = self.graph.dependency_slice(package);
        let shown: usize = if package.dependency_count < SUMMARY_DEPENDENCY_LINES {
            deps.len()
        } else {
            SUMMARY_DEPENDENCY_LINES as usize
        };
        assert(deps@.take(0) =~= Seq::<StoredDependency>::empty());
        let mut k: usize = 0;
        while k < shown
            invariant
                g == self@,
                g == self.graph@,
                shown <= deps@.len(),
                k <= shown,
                text@ == head + dependency_lines(g, deps@.take(k as int)),
            decreases shown - k,
        {
            let dependency = &deps[k];
            let ghost before = text@;
            assert(deps@.take(k + 1).drop_last() =~= deps@.take(k as int));
            if (dependency.package_index as usize) < self.graph.packages.len() {
                let line = dependency_text(&self.graph, dependency);
                push_text(&mut text, "\n");
                push_text(&mut text, line.as_str());
                assert(text@ =~= head + dependency_lines(g, deps@.take(k + 1)));
            } else {
                assert(dependency_lines(g, deps@.take(k + 1)) =~= dependency_lines(g, deps@.take(k as int)));
            }
            k = k + 1;
        }
        assert(deps@.take(shown as int) =~= (if package.dependency_count < SUMMARY_DEPENDENCY_LINES {
            deps@
        } else {
            deps@.take(SUMMARY_DEPENDENCY_LINES as int)
        }));
        if package.dependency_count > SUMMARY_DEPENDENCY_LINES {
            push_text(&mut text, "\n... ");
            push_text(
                &mut text,
                decimal_u64((package.dependency_count - SUMMARY_DEPENDENCY_LINES) as u64).as_str(),
            );
            push_text(&mut text, " more");
        }
        assert(text@ =~= summary_text(g, name@, index as int, dependents));
        Some(text)
    }
}


/// The one-line summary of package `package_index`: downloads, dependents (as
/// `dependent_counts` has them, zero when it has none for the package) and direct
/// dependencies; a fixed notice when there is no such package.
pub open spec fn dependency_summary(
    g: GraphModel,
    dependent_counts: Seq<u32>,
    package_index: int,
) -> Seq<char> {
    if package_index < g.packages.len() {
        let p = g.packages[package_index];
        let dependents: u32 = if package_index < dependent_counts.len() {
            dependent_counts[package_index]
        } else {
            0
        };
        decimal_text(p.downloads as nat) + " downloads \u{b7} "@ + decimal_text(dependents as nat)
            + " dependents \u{b7} "@ + decimal_text(p.dependency_count as nat)
            + " direct dependencies"@
    } else {
        "crate data unavailable"@
    }
}

pub fn dependency_summary_line(graph: &StoredGraph, dependent_counts: &[u32], package_index: usize) -> (r: String)
    ensures
        r@ == dependency_summary(graph@, dependent_counts@, package_index as int),
{
    if package_index >= graph.packages.len() {
        let mut text = String::new();
        push_text(&mut text, "crate data unavailable");
        assert(text@ =~= "crate data unavailable"@);
        return text;
    }
    let package = &graph.packages[package_index];
    let dependents: u32 = if package_index < dependent_counts.len() {
        dependent_counts[package_index]
    } else {
        0
    };
    let mut text = String::new();
    push_text(&mut text, decimal_u64(package.downloads).as_str());
    push_text(&mut text, " downloads \u{b7} ");
    push_text(&mut text, decimal_u64(dependents as u64).as_str());
    push_text(&mut text, " dependents \u{b7} ");
    push_text(&mut text, decimal_u64(package.dependency_count as u64).as_str());
    push_text(&mut text, " direct dependencies");
    assert(text@ =~= dependency_summary(graph@, dependent_counts@, package_index as int));
    text
}

// ---------------------------------------------------------------------------
// Hashes that place crates and cells.
// ---------------------------------------------------------------------------

/// The 32-bit FNV-1a hash of `bytes`.
pub open spec fn fnv1a(bytes: Seq<u8>) -> u32
    decreases bytes.len(),
{
    if bytes.len() == 0 {
        0x811c_9dc5u32
    } else {
        (fnv1a(bytes.drop_last()) ^ (bytes.last() as u32)).wrapping_mul(0x0100_0193u32)
    }
}

/// The FNV-1a hash of `bytes`, which the explorer derives stable per-crate values from.
pub fn stable_hash(bytes: &[u8]) -> (r: u32)
    ensures
        r == fnv1a(bytes@),
{
    let mut hash: u32 = 0x811c_9dc5u32;
    let mut i: usize = 0;
    assert(bytes@.take(0) =~= Seq::<u8>::empty());
    while i < bytes.len()
        invariant
            i <= bytes@.len(),
            hash == fnv1a(bytes@.take(i as int)),
        decreases bytes@.len() - i,
    {
        assert(bytes@.take(i + 1).drop_last() =~= bytes@.take(i as int));
        hash = hash ^ (bytes[i] as u32);
        hash = hash.wrapping_mul(0x0100_0193u32);
        i = i + 1;
    }
    assert(bytes@.take(bytes@.len() as int) =~= bytes@);
    hash
}

/// The hash of a grid cell: each coordinate, taken as 32 bits, times its own odd constant,
/// the three combined by exclusive or.
pub open spec fn cell_hash(x: i32, y: i32, z: i32) -> u32 {
    (x as u32).wrapping_mul(0x9e37_79b9u32) ^ (y as u32).wrapping_mul(0x85eb_ca6bu32) ^ (z as u32).wrapping_mul(
        0xc2b2_ae35u32,
    )
}

pub fn voxel_hash(x: i32, y: i32, z: i32) -> (r: u32)
    ensures
        r == cell_hash(x, y, z),
{
    let ux = x as u32;
    let uy = y as u32;
    let uz = z as u32;
    ux.wrapping_mul(0x9e37_79b9u32) ^ uy.wrapping_mul(0x85eb_ca6bu32) ^ uz.wrapping_mul(0xc2b2_ae35u32)
}


// ---------------------------------------------------------------------------
// Laws.
// ---------------------------------------------------------------------------

/// Every name the search answers with contains the query, ignoring ASCII case.
pub proof fn lemma_search_results_contain_query(
    g: GraphModel,
    q: Seq<char>,
    limit: usize,
    found: Seq<int>,
    names: Seq<Seq<char>>,
)
    requires
        search_lists(g, q, limit, found, names),
    ensures
        forall|k: int| 0 <= k < names.len() ==> occurs_in(ascii_lowercase_chars(#[trigger] names[k]), q),
{
    assert forall|k: int| 0 <= k < names.len() implies occurs_in(ascii_lowercase_chars(#[trigger] names[k]), q) by {
        assert(stands_for_name(g, q, g.packages.len() as int, found[k]));
        let l = folded_name(g, found[k]);
        assert(l == ascii_lowercase_chars(names[k]));
        if l == q || q.is_prefix_of(l) {
            assert(l.subrange(0, 0 + q.len() as int) =~= q);
            assert(occurs_in(l, q));
        }
    }
}

/// The search answers by closeness: a name equal to the query (ignoring ASCII case) comes
/// before every other name, and a name that begins with the query comes before every name
/// that only contains it.
pub proof fn lemma_search_ranks_exact_then_prefix(
    g: GraphModel,
    q: Seq<char>,
    limit: usize,
    found: Seq<int>,
    names: Seq<Seq<char>>,
)
    requires
        search_lists(g, q, limit, found, names),
    ensures
        forall|k: int| 0 <= k < names.len() && ascii_lowercase_chars(#[trigger] names[k]) == q ==> k == 0,
        forall|a: int, b: int|
            0 <= a < b < names.len() && q.is_prefix_of(ascii_lowercase_chars(#[trigger] names[b]))
                ==> q.is_prefix_of(ascii_lowercase_chars(#[trigger] names[a])),
{
    let n = g.packages.len() as int;
    assert forall|k: int| 0 <= k < names.len() && ascii_lowercase_chars(#[trigger] names[k]) == q implies k
        == 0 by {
        if k > 0 {
            assert(stands_for_name(g, q, n, found[0]));
            assert(stands_for_name(g, q, n, found[k]));
            assert(search_before(g, q, found[0], found[k]));
            assert(folded_name(g, found[k]) == q);
            assert(search_rank(g, q, found[k]) == 0);
            assert(folded_name(g, found[0]) == q);
            lemma_stands_for_unique(g, q, n, found[0], found[k]);
            crate::text::lemma_text_order_antisymmetric(name_of(g, found[0]), name_of(g, found[0]));
        }
    }
    assert forall|a: int, b: int|
        0 <= a < b < names.len() && q.is_prefix_of(ascii_lowercase_chars(#[trigger] names[b]))
            implies q.is_prefix_of(ascii_lowercase_chars(#[trigger] names[a])) by {
        assert(stands_for_name(g, q, n, found[a]));
        assert(stands_for_name(g, q, n, found[b]));
        assert(search_before(g, q, found[a], found[b]));
        assert(folded_name(g, found[b]) == ascii_lowercase_chars(names[b]));
        assert(folded_name(g, found[a]) == ascii_lowercase_chars(names[a]));
        assert(search_rank(g, q, found[b]) <= 1);
        assert(search_rank(g, q, found[a]) <= 1);
        assert(q.is_prefix_of(q));
    }
}

/// Among the first `m` packages, `j` is the one with most downloads of those found under
/// lowercased name `f`, the first of equals; `seen` says whether there is any.
spec fn best_so_far(g: GraphModel, q: Seq<char>, f: Seq<char>, m: int, seen: bool, j: int) -> bool {
    &&& seen ==> {
        &&& 0 <= j < m
        &&& search_hit(g, q, j)
        &&& folded_name(g, j) == f
    }
    &&& forall|x: int|
        0 <= x < m && #[trigger] search_hit(g, q, x) && folded_name(g, x) == f ==> {
            &&& seen
            &&& g.packages[x].downloads <= g.packages[j].downloads
            &&& x < j ==> g.packages[x].downloads < g.packages[j].downloads
        }
}

/// A package found under lowercased name `f` seen a package that stands for that name.
proof fn lemma_name_has_representative(g: GraphModel, q: Seq<char>, f: Seq<char>, m: int, seen: bool, j: int) -> (r: int)
    requires
        0 <= m <= g.packages.len(),
        best_so_far(g, q, f, m, seen, j),
        seen || exists|x: int| m <= x < g.packages.len() && #[trigger] search_hit(g, q, x) && folded_name(g, x) == f,
    ensures
        stands_for_name(g, q, g.packages.len() as int, r),
        folded_name(g, r) == f,
    decreases g.packages.len() - m,
{
    let n = g.packages.len() as int;
    if m == n {
        assert(seen);
        assert forall|x: int|
            0 <= x < n && #[trigger] search_hit(g, q, x) && folded_name(g, x) == folded_name(g, j) implies {
                &&& g.packages[x].downloads <= g.packages[j].downloads
                &&& x < j ==> g.packages[x].downloads < g.packages[j].downloads
            } by {}
        j
    } else {
        let take = search_hit(g, q, m) && folded_name(g, m) == f && (!seen || g.packages[m].downloads
            > g.packages[j].downloads);
        let nj = if take { m } else { j };
        let nseen = seen || take;
        assert(best_so_far(g, q, f, m + 1, nseen, nj)) by {
            assert forall|x: int|
                0 <= x < m + 1 && #[trigger] search_hit(g, q, x) && folded_name(g, x) == f implies {
                    &&& nseen
                    &&& g.packages[x].downloads <= g.packages[nj].downloads
                    &&& x < nj ==> g.packages[x].downloads < g.packages[nj].downloads
                } by {
                if x < m {
                    assert(seen);
                }
            }
        }
        if !nseen {
            let w = choose|x: int| m <= x < g.packages.len() && #[trigger] search_hit(g, q, x) && folded_name(g, x) == f;
            assert(w != m);
            assert(m + 1 <= w < g.packages.len() && search_hit(g, q, w) && folded_name(g, w) == f);
        }
        lemma_name_has_representative(g, q, f, m + 1, nseen, nj)
    }
}

/// When a package's name equals the query (ignoring ASCII case) and the answer may hold
/// anything, the answer holds that name, first.
pub proof fn lemma_search_finds_exact_name(
    g: GraphModel,
    q: Seq<char>,
    limit: usize,
    found: Seq<int>,
    names: Seq<Seq<char>>,
    i: int,
)
    requires
        search_lists(g, q, limit, found, names),
        limit > 0,
        has_name(g, i),
        folded_name(g, i) == q,
    ensures
        names.len() > 0,
        ascii_lowercase_chars(names[0]) == q,
{
    let n = g.packages.len() as int;
    assert(search_hit(g, q, i));
    let r = lemma_name_has_representative(g, q, q, 0, false, 0);
    lemma_search_ranks_exact_then_prefix(g, q, limit, found, names);
    if found.contains(r) {
        let x = choose|x: int| 0 <= x < found.len() && found[x] == r;
        assert(names[x] == name_of(g, r));
        assert(ascii_lowercase_chars(names[x]) == q);
        assert(x == 0);
    } else {
        assert(found.len() == limit);
        assert(search_before(g, q, found[0], r));
        assert(stands_for_name(g, q, n, found[0]));
        assert(search_rank(g, q, r) == 0);
        assert(folded_name(g, found[0]) == q);
        lemma_stands_for_unique(g, q, n, found[0], r);
        crate::text::lemma_text_order_antisymmetric(name_of(g, r), name_of(g, r));
    }
}

/// No two names the search answers with differ only in ASCII case.
pub proof fn lemma_search_results_distinct_ignoring_case(
    g: GraphModel,
    q: Seq<char>,
    limit: usize,
    found: Seq<int>,
    names: Seq<Seq<char>>,
)
    requires
        search_lists(g, q, limit, found, names),
    ensures
        forall|a: int, b: int|
            0 <= a < b < names.len() ==> ascii_lowercase_chars(#[trigger] names[a]) != ascii_lowercase_chars(
                #[trigger] names[b],
            ),
{
    let n = g.packages.len() as int;
    assert forall|a: int, b: int| 0 <= a < b < names.len() implies ascii_lowercase_chars(
        #[trigger] names[a],
    ) != ascii_lowercase_chars(#[trigger] names[b]) by {
        assert(stands_for_name(g, q, n, found[a]));
        assert(stands_for_name(g, q, n, found[b]));
        assert(search_before(g, q, found[a], found[b]));
        if folded_name(g, found[a]) == folded_name(g, found[b]) {
            lemma_stands_for_unique(g, q, n, found[a], found[b]);
            crate::text::lemma_text_order_antisymmetric(name_of(g, found[a]), name_of(g, found[a]));
        }
    }
}

/// How many of `deps` point at `t` is zero exactly when none of them does.
proof fn lemma_edges_into_zero(deps: Seq<StoredDependency>, t: int)
    ensures
        (edges_into(deps, t) == 0) <==> forall|k: int| 0 <= k < deps.len() ==> (#[trigger] deps[k]).package_index != t,
    decreases deps.len(),
{
    if deps.len() > 0 {
        let init = deps.drop_last();
        lemma_edges_into_zero(init, t);
        if edges_into(deps, t) == 0 {
            assert forall|k: int| 0 <= k < deps.len() implies (#[trigger] deps[k]).package_index != t by {
                if k < deps.len() - 1 {
                    assert(init[k] == deps[k]);
                }
            }
        }
        if forall|k: int| 0 <= k < deps.len() ==> (#[trigger] deps[k]).package_index != t {
            assert forall|k: int| 0 <= k < init.len() implies (#[trigger] init[k]).package_index != t by {
                assert(init[k] == deps[k]);
            }
            assert(deps[deps.len() - 1].package_index != t);
        }
    }
}

/// The count over the first `n` packages is zero exactly when none of them has a
/// dependency on `t`.
proof fn lemma_edges_into_from_zero(g: GraphModel, n: int, t: int)
    requires
        0 <= n <= g.packages.len(),
    ensures
        (edges_into_from(g, n, t) == 0) <==> forall|i: int| 0 <= i < n ==> !#[trigger] depends_on(g, i, t),
    decreases n,
{
    if n > 0 {
        let deps = owned_by(g, g.packages[n - 1]);
        lemma_edges_into_from_zero(g, n - 1, t);
        lemma_edges_into_zero(deps, t);
        if edges_into(deps, t) == 0 {
            assert(!depends_on(g, n - 1, t));
        } else {
            let k = choose|k: int| 0 <= k < deps.len() && (#[trigger] deps[k]).package_index == t;
            assert(depends_on(g, n - 1, t));
        }
    }
}

/// A package has dependents exactly when some dependency points at it: the count that
/// `dependent_counts` gives is zero exactly when `collect_dependents_sorted` finds nothing
/// but, at most, the package itself.
pub proof fn lemma_dependents_exist_iff_counted(g: GraphModel, t: int)
    ensures
        (dependent_count(g, t) == 0) <==> forall|i: int| 0 <= i < g.packages.len() ==> !#[trigger] depends_on(g, i, t),
        forall|i: int| #[trigger] is_dependent(g, i, t) ==> dependent_count(g, t) > 0,
{
    lemma_edges_into_from_zero(g, g.packages.len() as int, t);
}


// ---------------------------------------------------------------------------
// Rings around a focused crate.
// ---------------------------------------------------------------------------

/// A package near the focused crate, with its downloads and the slots of the ring inside
/// it (positions in the list of that ring's packages) that it hangs from.
pub struct NeighbourCandidate {
    pub package_index: usize,
    pub downloads: u64,
    pub parents: Vec<usize>,
}

/// How a ring is gathered: the focused package, the packages of the ring inside (by slot),
/// packages that are already placed, and whether only packages without dependencies of
/// their own may join.
pub struct RingModel {
    pub focal: int,
    pub slots: Seq<usize>,
    pub excluded: Seq<usize>,
    pub leaves_only: bool,
}

/// Package `t` may join the ring at all.
pub open spec fn may_join(g: GraphModel, ring: RingModel, t: int) -> bool {
    &&& 0 <= t < g.packages.len()
    &&& t != ring.focal
    &&& !ring.excluded.contains(t as usize)
    &&& ring.leaves_only ==> g.packages[t].dependency_count == 0
}

/// The slot `s` names a package.
pub open spec fn slot_names_package(g: GraphModel, ring: RingModel, s: int) -> bool {
    &&& 0 <= s < ring.slots.len()
    &&& (ring.slots[s] as int) < g.packages.len()
}

/// The dependencies of the package in slot `s`.
pub open spec fn slot_dependencies(g: GraphModel, ring: RingModel, s: int) -> Seq<StoredDependency> {
    owned_by(g, g.packages[ring.slots[s] as int])
}

/// One of the first `j` dependencies of the package in slot `s` brings `t` into the ring.
pub open spec fn reached(g: GraphModel, ring: RingModel, s: int, j: int, t: int) -> bool {
    &&& slot_names_package(g, ring, s)
    &&& may_join(g, ring, t)
    &&& exists|k: int|
        0 <= k < j && k < slot_dependencies(g, ring, s).len() && (#[trigger] slot_dependencies(
            g,
            ring,
            s,
        )[k]).package_index == t
}

/// Package `t` hangs from slot `s`: the package there depends on `t`, and `t` may join.
pub open spec fn hangs_from(g: GraphModel, ring: RingModel, s: int, t: int) -> bool {
    reached(g, ring, s, slot_dependencies(g, ring, s).len() as int, t)
}

/// The slots below `n` that `t` hangs from, in increasing order.
pub open spec fn hanging_slots(g: GraphModel, ring: RingModel, n: int, t: int) -> Seq<usize>
    decreases n,
{
    if n <= 0 {
        Seq::empty()
    } else {
        hanging_slots(g, ring, n - 1, t) + if hangs_from(g, ring, n - 1, t) {
            seq![(n - 1) as usize]
        } else {
            Seq::empty()
        }
    }
}

/// `r` holds each package that hangs from some slot of the ring once, with its downloads
/// and all the slots it hangs from.
pub open spec fn lists_ring(g: GraphModel, ring: RingModel, r: Seq<NeighbourCandidate>) -> bool {
    let n = ring.slots.len() as int;
    &&& forall|k: int|
        0 <= k < r.len() ==> {
            &&& ((#[trigger] r[k]).package_index as int) < g.packages.len()
            &&& r[k].downloads == g.packages[r[k].package_index as int].downloads
            &&& r[k].parents@ == hanging_slots(g, ring, n, r[k].package_index as int)
            &&& r[k].parents@.len() > 0
        }
    &&& forall|a: int, b: int| 0 <= a < b < r.len() ==> (#[trigger] r[a]).package_index != (#[trigger] r[b]).package_index
    &&& forall|t: int| hanging_slots(g, ring, n, t).len() > 0 ==> exists|k: int| 0 <= k < r.len() && r[k].package_index == t
}

/// Every slot in `hanging_slots(n)` is below `n`.
proof fn lemma_hanging_slots_below(g: GraphModel, ring: RingModel, n: int, t: int)
    ensures
        forall|i: int| 0 <= i < hanging_slots(g, ring, n, t).len() ==> (#[trigger] hanging_slots(g, ring, n, t)[i]) < n,
    decreases n,
{
    if n > 0 {
        lemma_hanging_slots_below(g, ring, n - 1, t);
        let before = hanging_slots(g, ring, n - 1, t);
        assert forall|i: int| 0 <= i < hanging_slots(g, ring, n, t).len() implies (#[trigger] hanging_slots(g, ring, n, t)[i]) < n by {
            if i < before.len() {
                assert(hanging_slots(g, ring, n, t)[i] == before[i]);
            }
        }
    }
}

/// Whether `list` holds `t`.
fn holds_index(list: &[usize], t: usize) -> (r: bool)
    ensures
        r == list@.contains(t),
{
    let mut i: usize = 0;
    while i < list.len()
        invariant
            i <= list@.len(),
            forall|k: int| 0 <= k < i ==> list@[k] != t,
        decreases list@.len() - i,
    {
        if list[i] == t {
            return true;
        }
        i = i + 1;
    }
    false
}

/// A copy of `list` with `x` added at the end.
fn with_last(list: &Vec<usize>, x: usize) -> (r: Vec<usize>)
    ensures
        r@ == list@.push(x),
{
    let mut r: Vec<usize> = Vec::new();
    let mut i: usize = 0;
    while i < list.len()
        invariant
            i <= list@.len(),
            r@ == list@.take(i as int),
        decreases list@.len() - i,
    {
        r.push(list[i]);
        i = i + 1;
        assert(r@ =~= list@.take(i as int));
    }
    r.push(x);
    assert(r@ =~= list@.push(x));
    r
}

/// The slots `t` is expected to hold while slot `s` is read up to dependency `j`.
pub open spec fn hanging_so_far(g: GraphModel, ring: RingModel, s: int, j: int, t: int) -> Seq<usize> {
    hanging_slots(g, ring, s, t) + if reached(g, ring, s, j, t) {
        seq![s as usize]
    } else {
        Seq::empty()
    }
}

/// The packages gathered so far, their slot lists, and where each package's entry is.
pub open spec fn gather_state(
    g: GraphModel,
    ring: RingModel,
    s: int,
    j: int,
    packages: Seq<usize>,
    lists: Seq<Vec<usize>>,
    slot_of: Seq<Option<usize>>,
) -> bool {
    let n = g.packages.len() as int;
    &&& packages.len() == lists.len()
    &&& packages.len() <= usize::MAX
    &&& ring.slots.len() <= usize::MAX
    &&& slot_of.len() == n
    &&& forall|k: int|
        0 <= k < packages.len() ==> {
            &&& (#[trigger] packages[k] as int) < n
            &&& slot_of[packages[k] as int] == Some(k as usize)
            &&& lists[k]@ == hanging_so_far(g, ring, s, j, packages[k] as int)
            &&& lists[k]@.len() > 0
        }
    &&& forall|t: int|
        0 <= t < n && #[trigger] slot_of[t] is Some ==> {
            &&& (slot_of[t]->0 as int) < packages.len()
            &&& packages[slot_of[t]->0 as int] == t
        }
    &&& forall|t: int| 0 <= t < n && #[trigger] hanging_so_far(g, ring, s, j, t).len() > 0 ==> slot_of[t] is Some
}

/// A copy of `list`.
fn copied(list: &Vec<usize>) -> (r: Vec<usize>)
    ensures
        r@ == list@,
{
    let mut r: Vec<usize> = Vec::new();
    let mut i: usize = 0;
    while i < list.len()
        invariant
            i <= list@.len(),
            r@ == list@.take(i as int),
        decreases list@.len() - i,
    {
        r.push(list[i]);
        i = i + 1;
        assert(r@ =~= list@.take(i as int));
    }
    assert(list@.take(list@.len() as int) =~= list@);
    r
}

/// A dependency whose target may not join changes nothing.
proof fn lemma_gather_skip(
    g: GraphModel,
    ring: RingModel,
    s: int,
    j: int,
    packages: Seq<usize>,
    lists: Seq<Vec<usize>>,
    slot_of: Seq<Option<usize>>,
)
    requires
        slot_names_package(g, ring, s),
        0 <= j < slot_dependencies(g, ring, s).len(),
        !may_join(g, ring, slot_dependencies(g, ring, s)[j].package_index as int),
        gather_state(g, ring, s, j, packages, lists, slot_of),
    ensures
        gather_state(g, ring, s, j + 1, packages, lists, slot_of),
{
    let deps = slot_dependencies(g, ring, s);
    assert forall|t: int| #[trigger] hanging_so_far(g, ring, s, j + 1, t) == hanging_so_far(g, ring, s, j, t) by {
        if reached(g, ring, s, j + 1, t) {
            let k = choose|k: int| 0 <= k < j + 1 && k < deps.len() && (#[trigger] deps[k]).package_index == t;
            assert(k != j);
            assert(reached(g, ring, s, j, t));
        }
    }
}

/// A dependency that brings a new package adds an entry for it.
proof fn lemma_gather_new(
    g: GraphModel,
    ring: RingModel,
    s: int,
    j: int,
    packages: Seq<usize>,
    lists: Seq<Vec<usize>>,
    slot_of: Seq<Option<usize>>,
    t: int,
    packages2: Seq<usize>,
    lists2: Seq<Vec<usize>>,
    slot_of2: Seq<Option<usize>>,
)
    requires
        slot_names_package(g, ring, s),
        0 <= j < slot_dependencies(g, ring, s).len(),
        slot_dependencies(g, ring, s)[j].package_index == t,
        may_join(g, ring, t),
        gather_state(g, ring, s, j, packages, lists, slot_of),
        slot_of[t] is None,
        packages2 == packages.push(t as usize),
        lists2.len() == lists.len() + 1,
        forall|x: int| 0 <= x < lists.len() ==> lists2[x] == lists[x],
        lists2[lists.len() as int]@ == seq![s as usize],
        slot_of2 == slot_of.update(t, Some(packages.len() as usize)),
        packages2.len() <= usize::MAX,
    ensures
        gather_state(g, ring, s, j + 1, packages2, lists2, slot_of2),
{
    let deps = slot_dependencies(g, ring, s);
    let n = g.packages.len() as int;
    assert(reached(g, ring, s, j + 1, t));
    assert(hanging_so_far(g, ring, s, j, t).len() == 0);
    assert(hanging_slots(g, ring, s, t) =~= Seq::<usize>::empty());
    assert(hanging_so_far(g, ring, s, j + 1, t) =~= seq![s as usize]);
    assert forall|x: int| x != t implies #[trigger] hanging_so_far(g, ring, s, j + 1, x) == hanging_so_far(g, ring, s, j, x) by {
        if reached(g, ring, s, j + 1, x) {
            let k = choose|k: int| 0 <= k < j + 1 && k < deps.len() && (#[trigger] deps[k]).package_index == x;
            assert(k != j);
            assert(reached(g, ring, s, j, x));
        }
    }
    assert forall|k: int| 0 <= k < packages2.len() implies {
        &&& (#[trigger] packages2[k] as int) < n
        &&& slot_of2[packages2[k] as int] == Some(k as usize)
        &&& lists2[k]@ == hanging_so_far(g, ring, s, j + 1, packages2[k] as int)
        &&& lists2[k]@.len() > 0
    } by {
        if k < packages.len() {
            assert(packages2[k] == packages[k]);
            assert(packages[k] as int != t);
        }
    }
    assert forall|x: int| 0 <= x < n && #[trigger] slot_of2[x] is Some implies {
        &&& (slot_of2[x]->0 as int) < packages2.len()
        &&& packages2[slot_of2[x]->0 as int] == x
    } by {
        if x != t {
            assert(slot_of2[x] == slot_of[x]);
        }
    }
    assert forall|x: int| 0 <= x < n && #[trigger] hanging_so_far(g, ring, s, j + 1, x).len() > 0 implies slot_of2[x] is Some by {
        if x != t {
            assert(hanging_so_far(g, ring, s, j, x).len() > 0);
        }
    }
}

/// A dependency that brings a package already listed adds slot `s` to it unless it is there.
proof fn lemma_gather_seen(
    g: GraphModel,
    ring: RingModel,
    s: int,
    j: int,
    packages: Seq<usize>,
    lists: Seq<Vec<usize>>,
    slot_of: Seq<Option<usize>>,
    t: int,
    lists2: Seq<Vec<usize>>,
)
    requires
        slot_names_package(g, ring, s),
        0 <= j < slot_dependencies(g, ring, s).len(),
        slot_dependencies(g, ring, s)[j].package_index == t,
        may_join(g, ring, t),
        gather_state(g, ring, s, j, packages, lists, slot_of),
        slot_of[t] is Some,
        lists2.len() == lists.len(),
        forall|x: int| 0 <= x < lists.len() && x != slot_of[t]->0 ==> lists2[x] == lists[x],
        lists2[slot_of[t]->0 as int]@ == if lists[slot_of[t]->0 as int]@.last() != s as usize {
            lists[slot_of[t]->0 as int]@.push(s as usize)
        } else {
            lists[slot_of[t]->0 as int]@
        },
    ensures
        gather_state(g, ring, s, j + 1, packages, lists2, slot_of),
{
    let deps = slot_dependencies(g, ring, s);
    let n = g.packages.len() as int;
    let k0 = slot_of[t]->0 as int;
    lemma_hanging_slots_below(g, ring, s, t);
    assert(reached(g, ring, s, j + 1, t));
    let before = hanging_so_far(g, ring, s, j, t);
    assert(lists[k0]@ == before);
    assert(packages[k0] == t);
    if reached(g, ring, s, j, t) {
        assert(before.last() == s as usize);
        assert(hanging_so_far(g, ring, s, j + 1, t) == before);
        assert(lists2[k0]@ == before);
    } else {
        assert(before == hanging_slots(g, ring, s, t));
        assert(before.last() < s);
        assert(hanging_so_far(g, ring, s, j + 1, t) == before.push(s as usize));
        assert(lists2[k0]@ == before.push(s as usize));
    }
    assert(lists2[k0]@ == hanging_so_far(g, ring, s, j + 1, t));
    assert forall|x: int| x != t implies #[trigger] hanging_so_far(g, ring, s, j + 1, x) == hanging_so_far(g, ring, s, j, x) by {
        if reached(g, ring, s, j + 1, x) {
            let k = choose|k: int| 0 <= k < j + 1 && k < deps.len() && (#[trigger] deps[k]).package_index == x;
            assert(k != j);
            assert(reached(g, ring, s, j, x));
        }
    }
    assert forall|k: int| 0 <= k < packages.len() implies {
        &&& (#[trigger] packages[k] as int) < n
        &&& slot_of[packages[k] as int] == Some(k as usize)
        &&& lists2[k]@ == hanging_so_far(g, ring, s, j + 1, packages[k] as int)
        &&& lists2[k]@.len() > 0
    } by {
        if k != k0 {
            assert(packages[k] as int != t);
        }
    }
    assert forall|x: int| 0 <= x < n && #[trigger] hanging_so_far(g, ring, s, j + 1, x).len() > 0 implies slot_of[x] is Some by {
        if x != t {
            assert(hanging_so_far(g, ring, s, j, x).len() > 0);
        }
    }
}

/// Finishing a slot: what was read of it is what hangs from it.
proof fn lemma_gather_next_slot(
    g: GraphModel,
    ring: RingModel,
    s: int,
    packages: Seq<usize>,
    lists: Seq<Vec<usize>>,
    slot_of: Seq<Option<usize>>,
)
    requires
        0 <= s < ring.slots.len(),
        gather_state(
            g,
            ring,
            s,
            if slot_names_package(g, ring, s) {
                slot_dependencies(g, ring, s).len() as int
            } else {
                0
            },
            packages,
            lists,
            slot_of,
        ),
    ensures
        gather_state(g, ring, s + 1, 0, packages, lists, slot_of),
{
    let j = if slot_names_package(g, ring, s) {
        slot_dependencies(g, ring, s).len() as int
    } else {
        0
    };
    assert forall|t: int| #[trigger] hanging_so_far(g, ring, s + 1, 0, t) == hanging_so_far(g, ring, s, j, t) by {
        assert(!reached(g, ring, s + 1, 0, t));
        assert(hanging_so_far(g, ring, s + 1, 0, t) =~= hanging_slots(g, ring, s + 1, t));
    }
}

/// The entries gathered over all slots are what `lists_ring` asks for.
proof fn lemma_gather_done(
    g: GraphModel,
    ring: RingModel,
    packages: Seq<usize>,
    lists: Seq<Vec<usize>>,
    slot_of: Seq<Option<usize>>,
    r: Seq<NeighbourCandidate>,
)
    requires
        gather_state(g, ring, ring.slots.len() as int, 0, packages, lists, slot_of),
        r.len() == packages.len(),
        forall|x: int|
            0 <= x < r.len() ==> {
                &&& (#[trigger] r[x]).package_index == packages[x]
                &&& r[x].downloads == g.packages[packages[x] as int].downloads
                &&& r[x].parents@ == lists[x]@
            },
    ensures
        lists_ring(g, ring, r),
{
    let n = ring.slots.len() as int;
    assert forall|t: int| #[trigger] hanging_so_far(g, ring, n, 0, t) == hanging_slots(g, ring, n, t) by {
        assert(hanging_so_far(g, ring, n, 0, t) =~= hanging_slots(g, ring, n, t));
    }
    assert forall|a: int, b: int| 0 <= a < b < r.len() implies (#[trigger] r[a]).package_index != (#[trigger] r[b]).package_index by {
        assert(slot_of[packages[a] as int] == Some(a as usize));
        assert(slot_of[packages[b] as int] == Some(b as usize));
    }
    assert forall|t: int| hanging_slots(g, ring, n, t).len() > 0 implies exists|k: int| 0 <= k < r.len() && r[k].package_index == t by {
        assert(hanging_so_far(g, ring, n, 0, t).len() > 0);
        if !(0 <= t < g.packages.len()) {
            assert(!reached(g, ring, 0, 0, t));
            lemma_hanging_slots_outside(g, ring, n, t);
        }
        let k = slot_of[t]->0 as int;
        assert(r[k].package_index == t);
    }
}

/// Only packages hang from slots.
proof fn lemma_hanging_slots_outside(g: GraphModel, ring: RingModel, n: int, t: int)
    requires
        !(0 <= t < g.packages.len()),
    ensures
        hanging_slots(g, ring, n, t).len() == 0,
    decreases n,
{
    if n > 0 {
        lemma_hanging_slots_outside(g, ring, n - 1, t);
    }
}

/// The packages that hang from the slots of a ring: for each slot in turn, the packages its
/// package depends on that are not `focal`, not in `excluded` and, with `leaves_only`,
/// have no dependencies; each once, with its downloads and the slots it hangs from.
pub fn gather_candidates(
    graph: &StoredGraph,
    focal: usize,
    slots: &[usize],
    excluded: &[usize],
    leaves_only: bool,
) -> (r: Vec<NeighbourCandidate>)
    requires
        slices_in_range(graph@),
    ensures
        lists_ring(
            graph@,
            RingModel { focal: focal as int, slots: slots@, excluded: excluded@, leaves_only },
            r@,
        ),
{
    let ghost g = graph@;
    let ghost ring = RingModel { focal: focal as int, slots: slots@, excluded: excluded@, leaves_only };
    let n = graph.packages.len();
    let mut slot_of: Vec<Option<usize>> = Vec::new();
    let mut i: usize = 0;
    while i < n
        invariant
            i <= n,
            slot_of@.len() == i,
            forall|t: int| 0 <= t < i ==> #[trigger] slot_of@[t] is None,
        decreases n - i,
    {
        slot_of.push(None);
        i = i + 1;
    }
    let mut packages: Vec<usize> = Vec::new();
    let mut lists: Vec<Vec<usize>> = Vec::new();
    assert(slots@.len() == slots.len());
    assert forall|t: int| #[trigger] hanging_so_far(g, ring, 0, 0, t).len() == 0 by {
        assert(hanging_so_far(g, ring, 0, 0, t) =~= Seq::<usize>::empty());
    }
    let mut s: usize = 0;
    while s < slots.len()
        invariant
            g == graph@,
            n == g.packages.len(),
            slices_in_range(g),
            ring == (RingModel { focal: focal as int, slots: slots@, excluded: excluded@, leaves_only }),
            s <= slots@.len(),
            gather_state(g, ring, s as int, 0, packages@, lists@, slot_of@),
        decreases slots@.len() - s,
    {
        let p = slots[s];
        if p < n {
            assert(range_end(g.packages[p as int]) <= g.dependencies.len());
            let deps = graph.dependency_slice(&graph.packages[p]);
            let mut j: usize = 0;
            while j < deps.len()
                invariant
                    g == graph@,
                    n == g.packages.len(),
                    ring == (RingModel { focal: focal as int, slots: slots@, excluded: excluded@, leaves_only }),
                    s < slots@.len(),
                    p == slots@[s as int],
                    p < n,
                    deps@ == slot_dependencies(g, ring, s as int),
                    j <= deps@.len(),
                            gather_state(g, ring, s as int, j as int, packages@, lists@, slot_of@),
                decreases deps@.len() - j,
            {
                let t = deps[j].package_index as usize;
                let ghost before_packages = packages@;
                let ghost before_lists = lists@;
                let ghost before_slot_of = slot_of@;
                if t < n && t != focal && !holds_index(excluded, t) && (!leaves_only
                    || graph.packages[t].dependency_count == 0) {
                    assert(may_join(g, ring, t as int));
                    assert(reached(g, ring, s as int, j + 1, t as int));
                    if slot_of[t].is_none() {
                        let k = packages.len();
                        let mut one: Vec<usize> = Vec::new();
                        one.push(s);
                        packages.push(t);
                        lists.push(one);
                        slot_of.set(t, Some(k));
                        assert(packages@.len() == packages.len());
                        proof {
                            lemma_gather_new(
                                g,
                                ring,
                                s as int,
                                j as int,
                                before_packages,
                                before_lists,
                                before_slot_of,
                                t as int,
                                packages@,
                                lists@,
                                slot_of@,
                            );
                        }
                    } else {
                        let k = slot_of[t].unwrap();
                        let count = lists[k].len();
                        if lists[k][count - 1] != s {
                            let longer = with_last(&lists[k], s);
                            lists.set(k, longer);
                        }
                        proof {
                            lemma_gather_seen(g, ring, s as int, j as int, before_packages, before_lists, before_slot_of, t as int, lists@);
                        }
                    }
                } else {
                    proof {
                        lemma_gather_skip(g, ring, s as int, j as int, packages@, lists@, slot_of@);
                    }
                }
                j = j + 1;
            }
            proof {
                lemma_gather_next_slot(g, ring, s as int, packages@, lists@, slot_of@);
            }
        } else {
            proof {
                lemma_gather_next_slot(g, ring, s as int, packages@, lists@, slot_of@);
            }
        }
        s = s + 1;
    }
    let mut r: Vec<NeighbourCandidate> = Vec::new();
    let mut k: usize = 0;
    while k < packages.len()
        invariant
            k <= packages@.len(),
            r@.len() == k,
            g == graph@,
            n == g.packages.len(),
            gather_state(g, ring, slots@.len() as int, 0, packages@, lists@, slot_of@),
            forall|x: int| 0 <= x < k ==> {
                &&& (#[trigger] r@[x]).package_index == packages@[x]
                &&& r@[x].downloads == g.packages[packages@[x] as int].downloads
                &&& r@[x].parents@ == lists@[x]@
            },
        decreases packages@.len() - k,
    {
        let candidate = NeighbourCandidate {
            package_index: packages[k],
            downloads: graph.packages[packages[k]].downloads,
            parents: copied(&lists[k]),
        };
        r.push(candidate);
        k = k + 1;
    }
    proof {
        lemma_gather_done(g, ring, packages@, lists@, slot_of@, r@);
    }
    r
}


/// Candidates are ranked by how many slots they hang from, most first, then by downloads,
/// most first, then by package.
pub open spec fn candidate_before(a: NeighbourCandidate, b: NeighbourCandidate) -> bool {
    ||| a.parents@.len() > b.parents@.len()
    ||| a.parents@.len() == b.parents@.len() && a.downloads > b.downloads
    ||| a.parents@.len() == b.parents@.len() && a.downloads == b.downloads && a.package_index
        < b.package_index
}

/// No package occurs twice among `c`.
pub open spec fn distinct_packages(c: Seq<NeighbourCandidate>) -> bool {
    forall|a: int, b: int| 0 <= a < b < c.len() ==> (#[trigger] c[a]).package_index != (#[trigger] c[b]).package_index
}

/// `r` is the first `limit` of `c` in the order of `candidate_before`.
pub open spec fn ranks_first(c: Seq<NeighbourCandidate>, limit: usize, r: Seq<NeighbourCandidate>) -> bool {
    &&& r.len() <= limit
    &&& forall|k: int| 0 <= k < r.len() ==> c.contains(#[trigger] r[k])
    &&& forall|a: int, b: int| 0 <= a < b < r.len() ==> candidate_before(#[trigger] r[a], #[trigger] r[b])
    &&& forall|x: int|
        0 <= x < c.len() ==> {
            ||| r.contains(#[trigger] c[x])
            ||| r.len() == limit && forall|k: int| 0 <= k < r.len() ==> candidate_before(#[trigger] r[k], c[x])
        }
}

/// The first `limit` candidates by `candidate_before`.
pub fn rank_candidates(candidates: Vec<NeighbourCandidate>, limit: usize) -> (r: Vec<NeighbourCandidate>)
    requires
        distinct_packages(candidates@),
    ensures
        ranks_first(candidates@, limit, r@),
        distinct_packages(r@),
{
    let ghost c = candidates@;
    let mut sorted = candidates;
    sort_candidates(&mut sorted);
    let ghost all = sorted@;
    let ghost p = choose|p: Seq<int>|
        permutes(p, c.len()) && forall|i: int| 0 <= i < c.len() ==> #[trigger] all[i] == c[p[i]];
    assert forall|a: int, b: int| 0 <= a < b < all.len() implies candidate_before(#[trigger] all[a], #[trigger] all[b]) by {
        assert(all[a] == c[p[a]]);
        assert(all[b] == c[p[b]]);
        assert(p[a] != p[b]);
        if p[a] < p[b] {
            assert(c[p[a]].package_index != c[p[b]].package_index);
        } else {
            assert(c[p[b]].package_index != c[p[a]].package_index);
        }
        assert(!candidate_before(all[b], all[a]));
    }
    assert forall|x: int| 0 <= x < c.len() implies exists|m: int| 0 <= m < all.len() && all[m] == #[trigger] c[x] by {
        assert(p.contains(x));
        let m = choose|m: int| 0 <= m < p.len() && p[m] == x;
        assert(all[m] == c[x]);
    }
    assert forall|k: int| 0 <= k < all.len() implies c.contains(#[trigger] all[k]) by {
        assert(all[k] == c[p[k]]);
    }
    sorted.truncate(limit);
    let ghost r = sorted@;
    assert forall|x: int| 0 <= x < c.len() implies {
        ||| r.contains(#[trigger] c[x])
        ||| r.len() == limit && forall|k: int| 0 <= k < r.len() ==> candidate_before(#[trigger] r[k], c[x])
    } by {
        let m = choose|m: int| 0 <= m < all.len() && all[m] == c[x];
        if m < r.len() {
            assert(r[m] == c[x]);
        } else {
            assert forall|k: int| 0 <= k < r.len() implies candidate_before(#[trigger] r[k], c[x]) by {
                assert(r[k] == all[k]);
            }
        }
    }
    assert forall|a: int, b: int| 0 <= a < b < r.len() implies (#[trigger] r[a]).package_index != (#[trigger] r[b]).package_index by {
        assert(candidate_before(r[a], r[b]));
    }
    sorted
}


/// The first slot candidate `c` hangs from is `s`.
pub open spec fn first_parent_is(c: NeighbourCandidate, s: int) -> bool {
    &&& c.parents@.len() > 0
    &&& c.parents@[0] == s
}

/// `groups` holds, for each slot below `slot_count` that some candidate of `c` first hangs
/// from, in increasing order, the positions in `c` of those candidates, in increasing order.
pub open spec fn groups_by_first_parent(
    c: Seq<NeighbourCandidate>,
    slot_count: usize,
    groups: Seq<(usize, Vec<usize>)>,
) -> bool {
    &&& forall|a: int, b: int| 0 <= a < b < groups.len() ==> (#[trigger] groups[a]).0 < (#[trigger] groups[b]).0
    &&& forall|k: int|
        0 <= k < groups.len() ==> {
            &&& (#[trigger] groups[k]).0 < slot_count
            &&& groups[k].1@.len() > 0
            &&& forall|i: int|
                0 <= i < groups[k].1@.len() ==> {
                    &&& (#[trigger] groups[k].1@[i] as int) < c.len()
                    &&& first_parent_is(c[groups[k].1@[i] as int], groups[k].0 as int)
                }
            &&& forall|i: int, j: int|
                0 <= i < j < groups[k].1@.len() ==> #[trigger] groups[k].1@[i] < #[trigger] groups[k].1@[j]
        }
    &&& forall|x: int|
        0 <= x < c.len() && (#[trigger] c[x]).parents@.len() > 0 && c[x].parents@[0] < slot_count
            ==> exists|k: int| 0 <= k < groups.len() && groups[k].0 == c[x].parents@[0] && groups[k].1@.contains(x as usize)
}

/// The candidates grouped by the first slot they hang from, for the slots below
/// `slot_count`: groups by increasing slot, each listing positions in `candidates` in order.
pub fn group_by_first_parent(candidates: &Vec<NeighbourCandidate>, slot_count: usize) -> (r: Vec<(usize, Vec<usize>)>)
    ensures
        groups_by_first_parent(candidates@, slot_count, r@),
{
    let ghost c = candidates@;
    let mut groups: Vec<(usize, Vec<usize>)> = Vec::new();
    let mut s: usize = 0;
    while s < slot_count
        invariant
            c == candidates@,
            s <= slot_count,
            forall|a: int, b: int| 0 <= a < b < groups@.len() ==> (#[trigger] groups@[a]).0 < (#[trigger] groups@[b]).0,
            forall|k: int|
                0 <= k < groups@.len() ==> {
                    &&& (#[trigger] groups@[k]).0 < s
                    &&& groups@[k].1@.len() > 0
                    &&& forall|i: int|
                        0 <= i < groups@[k].1@.len() ==> {
                            &&& (#[trigger] groups@[k].1@[i] as int) < c.len()
                            &&& first_parent_is(c[groups@[k].1@[i] as int], groups@[k].0 as int)
                        }
                    &&& forall|i: int, j: int|
                        0 <= i < j < groups@[k].1@.len() ==> #[trigger] groups@[k].1@[i] < #[trigger] groups@[k].1@[j]
                },
            forall|x: int|
                0 <= x < c.len() && (#[trigger] c[x]).parents@.len() > 0 && c[x].parents@[0] < s
                    ==> exists|k: int| 0 <= k < groups@.len() && groups@[k].0 == c[x].parents@[0] && groups@[k].1@.contains(x as usize),
        decreases slot_count - s,
    {
        let mut members: Vec<usize> = Vec::new();
        let mut x: usize = 0;
        while x < candidates.len()
            invariant
                c == candidates@,
                x <= c.len(),
                forall|i: int|
                    0 <= i < members@.len() ==> {
                        &&& (#[trigger] members@[i] as int) < x
                        &&& first_parent_is(c[members@[i] as int], s as int)
                    },
                forall|i: int, j: int| 0 <= i < j < members@.len() ==> #[trigger] members@[i] < #[trigger] members@[j],
                forall|y: int| 0 <= y < x && first_parent_is(#[trigger] c[y], s as int) ==> members@.contains(y as usize),
            decreases c.len() - x,
        {
            let candidate = &candidates[x];
            if candidate.parents.len() > 0 && candidate.parents[0] == s {
                let ghost before = members@;
                members.push(x);
                assert forall|y: int| 0 <= y < x + 1 && first_parent_is(#[trigger] c[y], s as int) implies members@.contains(y as usize) by {
                    if y == x {
                        assert(members@[before.len() as int] == y as usize);
                    } else {
                        let i = choose|i: int| 0 <= i < before.len() && before[i] == y as usize;
                        assert(members@[i] == y as usize);
                    }
                }
            }
            x = x + 1;
        }
        if members.len() > 0 {
            let ghost before = groups@;
            groups.push((s, members));
            assert forall|y: int|
                0 <= y < c.len() && (#[trigger] c[y]).parents@.len() > 0 && c[y].parents@[0] < s + 1
                    implies exists|k: int| 0 <= k < groups@.len() && groups@[k].0 == c[y].parents@[0] && groups@[k].1@.contains(y as usize) by {
                if c[y].parents@[0] == s {
                    assert(first_parent_is(c[y], s as int));
                    assert(groups@[before.len() as int].0 == c[y].parents@[0]);
                } else {
                    let k = choose|k: int| 0 <= k < before.len() && before[k].0 == c[y].parents@[0] && before[k].1@.contains(y as usize);
                    assert(groups@[k] == before[k]);
                }
            }
        } else {
            assert forall|y: int|
                0 <= y < c.len() && (#[trigger] c[y]).parents@.len() > 0 && c[y].parents@[0] < s + 1
                    implies exists|k: int| 0 <= k < groups@.len() && groups@[k].0 == c[y].parents@[0] && groups@[k].1@.contains(y as usize) by {
                if c[y].parents@[0] == s {
                    assert(first_parent_is(c[y], s as int));
                    assert(members@.contains(y as usize));
                }
            }
        }
        s = s + 1;
    }
    groups
}


/// Package `t` is among the targets of `deps`.
pub open spec fn targets(deps: Seq<StoredDependency>, t: int) -> bool {
    exists|k: int| 0 <= k < deps.len() && (#[trigger] deps[k]).package_index == t
}

/// The kind kept for target `t` among `deps` is `kind`.
pub open spec fn kept_kind(deps: Seq<StoredDependency>, t: int, kind: DependencyKind) -> bool {
    exists|j: int| kept_for(deps, deps.len() as int, t, j) && kind == kind_of_code(deps[j].kind)
}

/// `r` is the direct ring of package `p`: its first `limit` distinct dependency targets that
/// are packages, each with the kind `kept_for` picks, in the order of `dependent_before`.
pub open spec fn direct_ring(g: GraphModel, p: StoredPackage, limit: usize, r: Seq<(usize, DependencyKind)>) -> bool {
    let deps = owned_by(g, p);
    &&& r.len() <= limit
    &&& forall|k: int|
        0 <= k < r.len() ==> {
            &&& ((#[trigger] r[k]).0 as int) < g.packages.len()
            &&& kept_kind(deps, r[k].0 as int, r[k].1)
        }
    &&& forall|a: int, b: int|
        0 <= a < b < r.len() ==> dependent_before(
            ((#[trigger] r[a]).0, g.packages[r[a].0 as int]),
            ((#[trigger] r[b]).0, g.packages[r[b].0 as int]),
        )
    &&& forall|t: int|
        0 <= t < g.packages.len() && #[trigger] targets(deps, t) ==> {
            ||| exists|k: int| 0 <= k < r.len() && r[k].0 as int == t
            ||| r.len() == limit && forall|k: int|
                0 <= k < r.len() ==> dependent_before(
                    (#[trigger] r[k].0, g.packages[r[k].0 as int]),
                    (t as usize, g.packages[t]),
                )
        }
}

/// The kind listed for `target` in `unique`.
fn kind_listed(unique: &Vec<(usize, DependencyKind)>, target: usize) -> (r: DependencyKind)
    requires
        exists|a: int| 0 <= a < unique@.len() && unique@[a].0 == target,
    ensures
        exists|a: int| 0 <= a < unique@.len() && unique@[a].0 == target && unique@[a].1 == r,
{
    let mut a: usize = 0;
    while a < unique.len()
        invariant
            a <= unique@.len(),
            forall|x: int| 0 <= x < a ==> unique@[x].0 != target,
            exists|x: int| 0 <= x < unique@.len() && unique@[x].0 == target,
        decreases unique@.len() - a,
    {
        if unique[a].0 == target {
            return unique[a].1;
        }
        a = a + 1;
    }
    DependencyKind::Normal
}

/// The steps of `select_direct_dependencies` give its direct ring.
proof fn lemma_direct_ring(
    g: GraphModel,
    package: StoredPackage,
    limit: usize,
    u: Seq<(usize, DependencyKind)>,
    chosen: Seq<int>,
    first: Seq<int>,
    unsorted: Seq<(usize, StoredPackage)>,
    p: Seq<int>,
    sorted: Seq<(usize, StoredPackage)>,
    kept: Seq<(usize, StoredPackage)>,
    r: Seq<(usize, DependencyKind)>,
)
    requires
        unique_targets_at(owned_by(g, package), owned_by(g, package).len() as int, u, chosen, first),
        forall|k: int|
            0 <= k < unsorted.len() ==> {
                &&& ((#[trigger] unsorted[k]).0 as int) < g.packages.len()
                &&& unsorted[k].1 == g.packages[unsorted[k].0 as int]
            },
        forall|x: int|
            0 <= x < u.len() && ((#[trigger] u[x]).0 as int) < g.packages.len() ==> exists|k: int|
                0 <= k < unsorted.len() && unsorted[k].0 == u[x].0,
        permutes(p, unsorted.len()),
        sorted.len() == unsorted.len(),
        forall|i: int| 0 <= i < unsorted.len() ==> #[trigger] sorted[i] == unsorted[p[i]],
        forall|x: int, y: int| 0 <= x < y < sorted.len() ==> dependent_before(#[trigger] sorted[x], #[trigger] sorted[y]),
        kept.len() <= sorted.len(),
        kept.len() <= limit,
        kept.len() < sorted.len() ==> kept.len() == limit,
        forall|x: int| 0 <= x < kept.len() ==> #[trigger] kept[x] == sorted[x],
        r.len() == kept.len(),
        forall|x: int|
            0 <= x < r.len() ==> {
                &&& (#[trigger] r[x]).0 == kept[x].0
                &&& exists|y: int| 0 <= y < u.len() && u[y].0 == kept[x].0 && u[y].1 == r[x].1
            },
    ensures
        direct_ring(g, package, limit, r),
{
    let deps = owned_by(g, package);
    assert forall|k: int| 0 <= k < sorted.len() implies {
        &&& ((#[trigger] sorted[k]).0 as int) < g.packages.len()
        &&& sorted[k].1 == g.packages[sorted[k].0 as int]
    } by {
        assert(sorted[k] == unsorted[p[k]]);
    }
    assert forall|k: int| 0 <= k < r.len() implies {
        &&& ((#[trigger] r[k]).0 as int) < g.packages.len()
        &&& kept_kind(deps, r[k].0 as int, r[k].1)
    } by {
        assert(kept[k] == sorted[k]);
        let y = choose|y: int| 0 <= y < u.len() && u[y].0 == kept[k].0 && u[y].1 == r[k].1;
        assert(kept_for(deps, deps.len() as int, u[y].0 as int, chosen[y]));
    }
    assert forall|a: int, b: int| 0 <= a < b < r.len() implies dependent_before(
        ((#[trigger] r[a]).0, g.packages[r[a].0 as int]),
        ((#[trigger] r[b]).0, g.packages[r[b].0 as int]),
    ) by {
        assert(kept[a] == sorted[a]);
        assert(kept[b] == sorted[b]);
        assert(dependent_before(sorted[a], sorted[b]));
    }
    assert forall|t: int| 0 <= t < g.packages.len() && #[trigger] targets(deps, t) implies {
        ||| exists|k: int| 0 <= k < r.len() && r[k].0 as int == t
        ||| r.len() == limit && forall|k: int|
            0 <= k < r.len() ==> dependent_before(
                (#[trigger] r[k].0, g.packages[r[k].0 as int]),
                (t as usize, g.packages[t]),
            )
    } by {
        let j = choose|j: int| 0 <= j < deps.len() && (#[trigger] deps[j]).package_index == t;
        assert(covers_targets(deps, deps.len() as int, u));
        assert(exists|x: int| 0 <= x < u.len() && u[x].0 as int == deps[j].package_index) by {
            reveal(covers_targets);
        }
        let x = choose|x: int| 0 <= x < u.len() && u[x].0 as int == deps[j].package_index;
        let e = choose|e: int| 0 <= e < unsorted.len() && unsorted[e].0 == u[x].0;
        assert(p.contains(e));
        let m = choose|m: int| 0 <= m < p.len() && p[m] == e;
        assert(sorted[m] == unsorted[e]);
        if m < kept.len() {
            assert(r[m].0 == kept[m].0);
        } else {
            assert forall|k: int| 0 <= k < r.len() implies dependent_before(
                (#[trigger] r[k].0, g.packages[r[k].0 as int]),
                (t as usize, g.packages[t]),
            ) by {
                assert(kept[k] == sorted[k]);
                assert(dependent_before(sorted[k], sorted[m]));
            }
        }
    }
}

/// The direct ring of `package` for the dependency view: its distinct dependency targets
/// that are packages, each with its highest-priority kind, by downloads (most first), then
/// crate id, then package; at most `limit` of them.
#[verifier::spinoff_prover]
pub fn select_direct_dependencies(graph: &StoredGraph, package: &StoredPackage, limit: usize) -> (r: Vec<
    (usize, DependencyKind),
>)
    requires
        range_end(*package) <= graph@.dependencies.len(),
    ensures
        direct_ring(graph@, *package, limit, r@),
{
    let ghost g = graph@;
    let ghost deps = owned_by(g, *package);
    let unique = collect_unique_dependencies(graph, package);
    let ghost u = unique@;
    let ghost (chosen, first) = choose|chosen: Seq<int>, first: Seq<int>|
        unique_targets_at(deps, deps.len() as int, u, chosen, first);
    let n = graph.packages.len();
    let mut entries: Vec<(usize, StoredPackage)> = Vec::new();
    let ghost mut origin: Seq<int> = Seq::empty();
    let mut a: usize = 0;
    while a < unique.len()
        invariant
            g == graph@,
            n == g.packages.len(),
            u == unique@,
            a <= u.len(),
            entries@.len() == origin.len(),
            forall|k: int|
                #![trigger entries@[k]]
                #![trigger origin[k]]
                0 <= k < entries@.len() ==> {
                    &&& 0 <= origin[k] < a
                    &&& entries@[k].0 == u[origin[k]].0
                    &&& (entries@[k].0 as int) < n
                    &&& entries@[k].1 == g.packages[entries@[k].0 as int]
                },
            forall|x: int, y: int| 0 <= x < y < origin.len() ==> #[trigger] origin[x] < #[trigger] origin[y],
            forall|x: int|
                0 <= x < a && ((#[trigger] u[x]).0 as int) < n ==> exists|k: int| 0 <= k < origin.len() && origin[k] == x,
        decreases u.len() - a,
    {
        let t = unique[a].0;
        if t < n {
            let ghost before = origin;
            let ghost before_entries = entries@;
            entries.push((t, graph.packages[t]));
            proof {
                origin = origin.push(a as int);
                assert forall|k: int| 0 <= k < entries@.len() implies {
                    &&& 0 <= origin[k] < a + 1
                    &&& (#[trigger] entries@[k]).0 == u[origin[k]].0
                    &&& (entries@[k].0 as int) < n
                    &&& entries@[k].1 == g.packages[entries@[k].0 as int]
                } by {
                    if k < before.len() {
                        assert(entries@[k] == before_entries[k]);
                        assert(origin[k] == before[k]);
                    }
                }
                assert forall|x: int, y: int| 0 <= x < y < origin.len() implies #[trigger] origin[x] < #[trigger] origin[y] by {
                    if y < before.len() {
                        assert(origin[x] == before[x]);
                        assert(origin[y] == before[y]);
                    } else {
                        assert(origin[x] == before[x]);
                        assert(before_entries[x].0 == u[before[x]].0);
                    }
                }
                assert forall|x: int|
                    0 <= x < a + 1 && ((#[trigger] u[x]).0 as int) < n implies exists|k: int| 0 <= k < origin.len() && origin[k] == x by {
                    if x == a {
                        assert(origin[before.len() as int] == x);
                    } else {
                        let k = choose|k: int| 0 <= k < before.len() && before[k] == x;
                        assert(origin[k] == x);
                    }
                }
            }
        }
        a = a + 1;
    }
    assert forall|x: int, y: int| 0 <= x < y < entries@.len() implies (#[trigger] entries@[x]).0 != (#[trigger] entries@[y]).0 by {
        assert(entries@[x].0 == u[origin[x]].0);
        assert(entries@[y].0 == u[origin[y]].0);
        assert(origin[x] < origin[y]);
        lemma_targets_distinct(deps, deps.len() as int, u, chosen, first, origin[x], origin[y]);
    }
    assert forall|x: int| 0 <= x < u.len() && ((#[trigger] u[x]).0 as int) < n implies exists|k: int|
        0 <= k < entries@.len() && entries@[k].0 == u[x].0 by {
        let k = choose|k: int| 0 <= k < origin.len() && origin[k] == x;
        assert(entries@[k].0 == u[x].0);
    }
    let ghost unsorted = entries@;
    sort_dependents(&mut entries);
    let ghost sorted = entries@;
    let ghost p = choose|p: Seq<int>|
        permutes(p, unsorted.len()) && forall|i: int| 0 <= i < unsorted.len() ==> #[trigger] sorted[i] == unsorted[p[i]];
    assert forall|x: int, y: int| 0 <= x < y < sorted.len() implies dependent_before(#[trigger] sorted[x], #[trigger] sorted[y]) by {
        assert(sorted[x] == unsorted[p[x]]);
        assert(sorted[y] == unsorted[p[y]]);
        assert(p[x] != p[y]);
        if p[x] < p[y] {
            assert(unsorted[p[x]].0 != unsorted[p[y]].0);
        } else {
            assert(unsorted[p[y]].0 != unsorted[p[x]].0);
        }
        assert(!dependent_before(sorted[y], sorted[x]));
    }
    entries.truncate(limit);
    let ghost kept = entries@;
    let mut r: Vec<(usize, DependencyKind)> = Vec::new();
    let mut k: usize = 0;
    while k < entries.len()
        invariant
            g == graph@,
            u == unique@,
            entries@ == kept,
            kept.len() <= sorted.len(),
            forall|x: int| 0 <= x < kept.len() ==> #[trigger] kept[x] == sorted[x],
            permutes(p, unsorted.len()),
            sorted.len() == unsorted.len(),
            forall|i: int| 0 <= i < unsorted.len() ==> #[trigger] sorted[i] == unsorted[p[i]],
            unsorted.len() == origin.len(),
            forall|i: int|
                #![trigger unsorted[i]]
                #![trigger origin[i]]
                0 <= i < unsorted.len() ==> 0 <= origin[i] < u.len() && unsorted[i].0 == u[origin[i]].0,
            k <= kept.len(),
            r@.len() == k,
            forall|x: int|
                0 <= x < k ==> {
                    &&& (#[trigger] r@[x]).0 == kept[x].0
                    &&& exists|y: int| 0 <= y < u.len() && u[y].0 == kept[x].0 && u[y].1 == r@[x].1
                },
        decreases kept.len() - k,
    {
        let target = entries[k].0;
        proof {
            let i = p[k as int];
            assert(kept[k as int] == sorted[k as int]);
            assert(sorted[k as int] == unsorted[i]);
            assert(u[origin[i]].0 == target);
        }
        let kind = kind_listed(&unique, target);
        r.push((target, kind));
        k = k + 1;
    }
    proof {
        lemma_direct_ring(g, *package, limit, u, chosen, first, unsorted, p, sorted, kept, r@);
    }
    r
}


/// At most this many direct dependencies are shown around a focused crate.
pub const MAX_DIRECT: usize = 32usize;

/// At most this many packages form the second ring.
pub const MAX_SECONDARY: usize = 180usize;

/// At most this many leaves form the outer ring.
pub const MAX_TERTIARY_LEAVES: usize = 120usize;

/// The rings of the dependency view around one package: its direct dependencies, the
/// packages those depend on, grouped by the first direct dependency they hang from, the
/// order in which those packages take their slots, and the leaves hanging from them.
pub struct DependencyRings {
    pub direct: Vec<(usize, DependencyKind)>,
    pub secondary: Vec<NeighbourCandidate>,
    pub secondary_groups: Vec<(usize, Vec<usize>)>,
    pub secondary_slots: Vec<usize>,
    pub tertiary: Vec<NeighbourCandidate>,
    pub tertiary_groups: Vec<(usize, Vec<usize>)>,
}

/// The packages of `groups`, group after group, each position in `c` replaced by its
/// package.
pub open spec fn slots_of_groups(groups: Seq<(usize, Vec<usize>)>, c: Seq<NeighbourCandidate>) -> Seq<usize>
    decreases groups.len(),
{
    if groups.len() == 0 {
        Seq::empty()
    } else {
        slots_of_groups(groups.drop_last(), c) + groups.last().1@.map_values(
            |pos: usize| c[pos as int].package_index,
        )
    }
}

/// The packages of the ring `r` ranked from everything that hangs from `ring`: the first
/// `limit` of them by `candidate_before`.
pub open spec fn ranked_ring(g: GraphModel, ring: RingModel, limit: usize, r: Seq<NeighbourCandidate>) -> bool {
    exists|c: Seq<NeighbourCandidate>| lists_ring(g, ring, c) && ranks_first(c, limit, r)
}

/// `rings` are the rings of the dependency view around package `focal`.
pub open spec fn dependency_rings_of(g: GraphModel, focal: int, rings: DependencyRings) -> bool {
    let direct = rings.direct@.map_values(|e: (usize, DependencyKind)| e.0);
    let slots = rings.secondary_slots@;
    &&& direct_ring(g, g.packages[focal], MAX_DIRECT, rings.direct@)
    &&& ranked_ring(
        g,
        RingModel { focal, slots: direct, excluded: direct, leaves_only: false },
        MAX_SECONDARY,
        rings.secondary@,
    )
    &&& groups_by_first_parent(rings.secondary@, direct.len() as usize, rings.secondary_groups@)
    &&& slots == slots_of_groups(rings.secondary_groups@, rings.secondary@)
    &&& ranked_ring(
        g,
        RingModel { focal, slots, excluded: direct + slots, leaves_only: true },
        MAX_TERTIARY_LEAVES,
        rings.tertiary@,
    )
    &&& groups_by_first_parent(rings.tertiary@, slots.len() as usize, rings.tertiary_groups@)
}

/// The packages of `groups`, group after group.
fn flatten_groups(groups: &Vec<(usize, Vec<usize>)>, c: &Vec<NeighbourCandidate>) -> (r: Vec<usize>)
    requires
        forall|k: int, i: int|
            0 <= k < groups@.len() && 0 <= i < groups@[k].1@.len() ==> (#[trigger] groups@[k].1@[i] as int) < c@.len(),
    ensures
        r@ == slots_of_groups(groups@, c@),
{
    let mut r: Vec<usize> = Vec::new();
    let mut k: usize = 0;
    while k < groups.len()
        invariant
            k <= groups@.len(),
            r@ == slots_of_groups(groups@.take(k as int), c@),
            forall|k: int, i: int|
                0 <= k < groups@.len() && 0 <= i < groups@[k].1@.len() ==> (#[trigger] groups@[k].1@[i] as int) < c@.len(),
        decreases groups@.len() - k,
    {
        let members = &groups[k].1;
        let ghost start = r@;
        let mut i: usize = 0;
        while i < members.len()
            invariant
                k < groups@.len(),
                members@ == groups@[k as int].1@,
                i <= members@.len(),
                r@ == start + members@.take(i as int).map_values(|pos: usize| c@[pos as int].package_index),
                forall|k: int, i: int|
                    0 <= k < groups@.len() && 0 <= i < groups@[k].1@.len() ==> (#[trigger] groups@[k].1@[i] as int) < c@.len(),
            decreases members@.len() - i,
        {
            assert(groups@[k as int].1@[i as int] == members@[i as int]);
            r.push(c[members[i]].package_index);
            i = i + 1;
            assert(r@ =~= start + members@.take(i as int).map_values(|pos: usize| c@[pos as int].package_index));
        }
        assert(groups@.take(k + 1).drop_last() =~= groups@.take(k as int));
        assert(members@.take(members@.len() as int) =~= members@);
        k = k + 1;
    }
    assert(groups@.take(groups@.len() as int) =~= groups@);
    r
}

/// The packages named by the entries of `direct`.
fn direct_packages(direct: &Vec<(usize, DependencyKind)>) -> (r: Vec<usize>)
    ensures
        r@ == direct@.map_values(|e: (usize, DependencyKind)| e.0),
{
    let mut r: Vec<usize> = Vec::new();
    let mut k: usize = 0;
    while k < direct.len()
        invariant
            k <= direct@.len(),
            r@ == direct@.take(k as int).map_values(|e: (usize, DependencyKind)| e.0),
        decreases direct@.len() - k,
    {
        r.push(direct[k].0);
        k = k + 1;
        assert(r@ =~= direct@.take(k as int).map_values(|e: (usize, DependencyKind)| e.0));
    }
    assert(direct@.take(direct@.len() as int) =~= direct@);
    r
}

/// `a` followed by `b`.
fn joined(a: &Vec<usize>, b: &Vec<usize>) -> (r: Vec<usize>)
    ensures
        r@ == a@ + b@,
{
    let mut r = copied(a);
    let mut i: usize = 0;
    while i < b.len()
        invariant
            i <= b@.len(),
            r@ == a@ + b@.take(i as int),
        decreases b@.len() - i,
    {
        r.push(b[i]);
        i = i + 1;
        assert(r@ =~= a@ + b@.take(i as int));
    }
    assert(b@.take(b@.len() as int) =~= b@);
    r
}

/// The rings of the dependency view around package `focal_index`: up to `MAX_DIRECT`
/// direct dependencies, up to `MAX_SECONDARY` packages they depend on, grouped by the
/// first direct dependency they hang from, and up to `MAX_TERTIARY_LEAVES` packages
/// without dependencies that those depend on.
pub fn dependency_rings(graph: &StoredGraph, focal_index: usize) -> (r: DependencyRings)
    requires
        slices_in_range(graph@),
        focal_index < graph@.packages.len(),
    ensures
        dependency_rings_of(graph@, focal_index as int, r),
{
    let ghost g = graph@;
    assert(range_end(g.packages[focal_index as int]) <= g.dependencies.len());
    let direct = select_direct_dependencies(graph, &graph.packages[focal_index], MAX_DIRECT);
    let direct_pkgs = direct_packages(&direct);
    let secondary_all = gather_candidates(graph, focal_index, direct_pkgs.as_slice(), direct_pkgs.as_slice(), false);
    let ghost c2 = secondary_all@;
    let secondary = rank_candidates(secondary_all, MAX_SECONDARY);
    let secondary_groups = group_by_first_parent(&secondary, direct_pkgs.len());
    let secondary_slots = flatten_groups(&secondary_groups, &secondary);
    let excluded = joined(&direct_pkgs, &secondary_slots);
    let tertiary_all = gather_candidates(graph, focal_index, secondary_slots.as_slice(), excluded.as_slice(), true);
    let ghost c3 = tertiary_all@;
    let tertiary = rank_candidates(tertiary_all, MAX_TERTIARY_LEAVES);
    let tertiary_groups = group_by_first_parent(&tertiary, secondary_slots.len());
    let rings = DependencyRings {
        direct,
        secondary,
        secondary_groups,
        secondary_slots,
        tertiary,
        tertiary_groups,
    };
    assert(ranked_ring(
        g,
        RingModel { focal: focal_index as int, slots: direct_pkgs@, excluded: direct_pkgs@, leaves_only: false },
        MAX_SECONDARY,
        rings.secondary@,
    ));
    assert(ranked_ring(
        g,
        RingModel { focal: focal_index as int, slots: rings.secondary_slots@, excluded: direct_pkgs@ + rings.secondary_slots@, leaves_only: true },
        MAX_TERTIARY_LEAVES,
        rings.tertiary@,
    ));
    rings
}


// ---------------------------------------------------------------------------
// The focus view.
// ---------------------------------------------------------------------------

/// At most this many direct dependencies ring a focused crate.
pub const FOCUS_DIRECT: usize = 18usize;

/// The secondary ring looks below this many direct dependencies.
pub const FOCUS_PARENT_SLOTS: usize = 14usize;

/// Each direct dependency contributes at most this many secondary candidates.
pub const FOCUS_PER_SLOT: usize = 5usize;

/// At most this many packages form the secondary ring.
pub const FOCUS_SECONDARY: usize = 26usize;

/// At most this many dependents are shown.
pub const FOCUS_DEPENDENTS: usize = 12usize;

/// Dependency `j` of `deps` names a package.
pub open spec fn names_target(g: GraphModel, deps: Seq<StoredDependency>, j: int) -> bool {
    &&& 0 <= j < deps.len()
    &&& (deps[j].package_index as int) < g.packages.len()
}

/// In the focus view, dependency `j` is shown before dependency `k`: its target has more
/// downloads, or as many and a smaller crate id, or it comes first.
pub open spec fn neighbour_before(g: GraphModel, deps: Seq<StoredDependency>, j: int, k: int) -> bool {
    dependent_before(
        (j as usize, g.packages[deps[j].package_index as int]),
        (k as usize, g.packages[deps[k].package_index as int]),
    )
}

/// `r` lists, for the dependencies at positions `pos`, each target and kind: the first
/// `limit` dependencies of `p` that name a package, in the order of `neighbour_before`.
pub open spec fn neighbours_at(
    g: GraphModel,
    p: StoredPackage,
    limit: usize,
    r: Seq<(usize, DependencyKind)>,
    pos: Seq<int>,
) -> bool {
    let deps = owned_by(g, p);
    &&& pos.len() == r.len()
    &&& r.len() <= limit
    &&& forall|k: int|
        0 <= k < r.len() ==> {
            &&& names_target(g, deps, #[trigger] pos[k])
            &&& r[k] == (deps[pos[k]].package_index as usize, kind_of_code(deps[pos[k]].kind))
        }
    &&& forall|a: int, b: int| 0 <= a < b < r.len() ==> neighbour_before(g, deps, #[trigger] pos[a], #[trigger] pos[b])
    &&& forall|j: int|
        #[trigger] names_target(g, deps, j) ==> {
            ||| pos.contains(j)
            ||| r.len() == limit && forall|k: int| 0 <= k < r.len() ==> neighbour_before(g, deps, #[trigger] pos[k], j)
        }
}

/// The direct ring of the focus view: the first `limit` dependencies of `package` that name a
/// package, by the downloads of the target (most first), then its crate id, then position;
/// each as its target and kind. A target named twice appears twice.
pub fn select_direct_neighbours(graph: &StoredGraph, package: &StoredPackage, limit: usize) -> (r: Vec<
    (usize, DependencyKind),
>)
    requires
        range_end(*package) <= graph@.dependencies.len(),
    ensures
        exists|pos: Seq<int>| neighbours_at(graph@, *package, limit, r@, pos),
{
    let ghost g = graph@;
    let deps = graph.dependency_slice(package);
    let ghost ds = deps@;
    assert(ds == owned_by(g, *package));
    let n = graph.packages.len();
    let mut entries: Vec<(usize, StoredPackage)> = Vec::new();
    let mut j: usize = 0;
    while j < deps.len()
        invariant
            g == graph@,
            n == g.packages.len(),
            ds == deps@,
            j <= ds.len(),
            forall|k: int|
                0 <= k < entries@.len() ==> {
                    &&& names_target(g, ds, (#[trigger] entries@[k]).0 as int)
                    &&& (entries@[k].0 as int) < j
                    &&& entries@[k].1 == g.packages[ds[entries@[k].0 as int].package_index as int]
                },
            forall|x: int, y: int| 0 <= x < y < entries@.len() ==> (#[trigger] entries@[x]).0 < (#[trigger] entries@[y]).0,
            forall|i: int| 0 <= i < j && #[trigger] names_target(g, ds, i) ==> exists|k: int| 0 <= k < entries@.len() && entries@[k].0 == i,
        decreases ds.len() - j,
    {
        let t = deps[j].package_index as usize;
        if t < n {
            let ghost before = entries@;
            entries.push((j, graph.packages[t]));
            assert forall|i: int| 0 <= i < j + 1 && #[trigger] names_target(g, ds, i) implies exists|k: int|
                0 <= k < entries@.len() && entries@[k].0 == i by {
                if i == j {
                    assert(entries@[before.len() as int].0 == i);
                } else {
                    let k = choose|k: int| 0 <= k < before.len() && before[k].0 == i;
                    assert(entries@[k] == before[k]);
                }
            }
        }
        j = j + 1;
    }
    let ghost unsorted = entries@;
    sort_dependents(&mut entries);
    let ghost sorted = entries@;
    let ghost p = choose|p: Seq<int>|
        permutes(p, unsorted.len()) && forall|i: int| 0 <= i < unsorted.len() ==> #[trigger] sorted[i] == unsorted[p[i]];
    assert forall|x: int, y: int| 0 <= x < y < sorted.len() implies dependent_before(#[trigger] sorted[x], #[trigger] sorted[y]) by {
        assert(sorted[x] == unsorted[p[x]]);
        assert(sorted[y] == unsorted[p[y]]);
        assert(p[x] != p[y]);
        if p[x] < p[y] {
            assert(unsorted[p[x]].0 < unsorted[p[y]].0);
        } else {
            assert(unsorted[p[y]].0 < unsorted[p[x]].0);
        }
        assert(!dependent_before(sorted[y], sorted[x]));
    }
    assert forall|k: int| 0 <= k < sorted.len() implies {
        &&& names_target(g, ds, (#[trigger] sorted[k]).0 as int)
        &&& sorted[k].1 == g.packages[ds[sorted[k].0 as int].package_index as int]
    } by {
        assert(sorted[k] == unsorted[p[k]]);
    }
    assert forall|i: int| #[trigger] names_target(g, ds, i) implies exists|m: int| 0 <= m < sorted.len() && sorted[m].0 == i by {
        let e = choose|e: int| 0 <= e < unsorted.len() && unsorted[e].0 == i;
        assert(p.contains(e));
        let m = choose|m: int| 0 <= m < p.len() && p[m] == e;
        assert(sorted[m] == unsorted[e]);
    }
    entries.truncate(limit);
    let ghost kept = entries@;
    let mut r: Vec<(usize, DependencyKind)> = Vec::new();
    let mut k: usize = 0;
    while k < entries.len()
        invariant
            g == graph@,
            ds == deps@,
            entries@ == kept,
            kept.len() <= sorted.len(),
            forall|x: int| 0 <= x < kept.len() ==> #[trigger] kept[x] == sorted[x],
            forall|x: int| 0 <= x < sorted.len() ==> names_target(g, ds, (#[trigger] sorted[x]).0 as int),
            k <= kept.len(),
            r@.len() == k,
            forall|x: int|
                0 <= x < k ==> #[trigger] r@[x] == (ds[kept[x].0 as int].package_index as usize, kind_of_code(
                    ds[kept[x].0 as int].kind,
                )),
        decreases kept.len() - k,
    {
        let at = entries[k].0;
        assert(kept[k as int] == sorted[k as int]);
        r.push((deps[at].package_index as usize, deps[at].kind()));
        k = k + 1;
    }
    let ghost pos = kept.map_values(|e: (usize, StoredPackage)| e.0 as int);
    assert forall|a: int, b: int| 0 <= a < b < r@.len() implies neighbour_before(g, ds, #[trigger] pos[a], #[trigger] pos[b]) by {
        assert(kept[a] == sorted[a]);
        assert(kept[b] == sorted[b]);
        assert(dependent_before(sorted[a], sorted[b]));
    }
    assert forall|i: int| #[trigger] names_target(g, ds, i) implies {
        ||| pos.contains(i)
        ||| r@.len() == limit && forall|k: int| 0 <= k < r@.len() ==> neighbour_before(g, ds, #[trigger] pos[k], i)
    } by {
        let m = choose|m: int| 0 <= m < sorted.len() && sorted[m].0 == i;
        if m < kept.len() {
            assert(kept[m] == sorted[m]);
            assert(pos[m] == i);
        } else {
            assert forall|k: int| 0 <= k < r@.len() implies neighbour_before(g, ds, #[trigger] pos[k], i) by {
                assert(kept[k] == sorted[k]);
                assert(dependent_before(sorted[k], sorted[m]));
            }
        }
    }
    assert forall|k: int| 0 <= k < r@.len() implies {
        &&& names_target(g, ds, #[trigger] pos[k])
        &&& r@[k] == (ds[pos[k]].package_index as usize, kind_of_code(ds[pos[k]].kind))
    } by {
        assert(kept[k] == sorted[k]);
    }
    assert(neighbours_at(g, *package, limit, r@, pos));
    r
}


/// A dependency on `t1` comes before any dependency on `t2` in `deps`.
pub open spec fn appears_before(deps: Seq<StoredDependency>, t1: int, t2: int) -> bool {
    exists|j: int|
        0 <= j < deps.len() && (#[trigger] deps[j]).package_index == t1 && forall|m: int|
            0 <= m <= j ==> (#[trigger] deps[m]).package_index != t2
}

/// Among the dependencies `deps`, target `t1` ranks above `t2`: more downloads, or as many
/// and a smaller crate id, or as many of both and named first.
pub open spec fn top_before(g: GraphModel, deps: Seq<StoredDependency>, t1: int, t2: int) -> bool {
    ||| g.packages[t1].downloads > g.packages[t2].downloads
    ||| g.packages[t1].downloads == g.packages[t2].downloads && g.packages[t1].crate_id
        < g.packages[t2].crate_id
    ||| g.packages[t1].downloads == g.packages[t2].downloads && g.packages[t1].crate_id
        == g.packages[t2].crate_id && appears_before(deps, t1, t2)
}

/// Package `t` is a target of `deps` that may be offered: a package other than `focal`
/// and not in `excluded`.
pub open spec fn offered(g: GraphModel, deps: Seq<StoredDependency>, focal: int, excluded: Seq<usize>, t: int) -> bool {
    &&& 0 <= t < g.packages.len()
    &&& t != focal
    &&& !excluded.contains(t as usize)
    &&& targets(deps, t)
}

/// `r` is the first `limit` offered targets of `deps`, in the order of `top_before`.
pub open spec fn top_targets_of(
    g: GraphModel,
    deps: Seq<StoredDependency>,
    focal: int,
    excluded: Seq<usize>,
    limit: usize,
    r: Seq<usize>,
) -> bool {
    &&& r.len() <= limit
    &&& forall|k: int| 0 <= k < r.len() ==> offered(g, deps, focal, excluded, #[trigger] r[k] as int)
    &&& forall|a: int, b: int| 0 <= a < b < r.len() ==> top_before(g, deps, #[trigger] r[a] as int, #[trigger] r[b] as int)
    &&& forall|t: int|
        #[trigger] offered(g, deps, focal, excluded, t) ==> {
            ||| r.contains(t as usize)
            ||| r.len() == limit && forall|k: int| 0 <= k < r.len() ==> top_before(g, deps, #[trigger] r[k] as int, t)
        }
}

/// Sorting the offered unique targets orders them by `top_before` and keeps all of them.
proof fn lemma_top_targets_sorted(
    g: GraphModel,
    deps: Seq<StoredDependency>,
    focal: int,
    excluded: Seq<usize>,
    u: Seq<(usize, DependencyKind)>,
    chosen: Seq<int>,
    first: Seq<int>,
    unsorted: Seq<(usize, StoredPackage)>,
    p: Seq<int>,
    sorted: Seq<(usize, StoredPackage)>,
)
    requires
        unique_targets_at(deps, deps.len() as int, u, chosen, first),
        forall|k: int|
            0 <= k < unsorted.len() ==> {
                &&& 0 <= (#[trigger] unsorted[k]).0 < u.len()
                &&& offered(g, deps, focal, excluded, u[unsorted[k].0 as int].0 as int)
                &&& unsorted[k].1 == g.packages[u[unsorted[k].0 as int].0 as int]
            },
        forall|x: int, y: int| 0 <= x < y < unsorted.len() ==> (#[trigger] unsorted[x]).0 < (#[trigger] unsorted[y]).0,
        forall|x: int|
            0 <= x < u.len() && offered(g, deps, focal, excluded, (#[trigger] u[x]).0 as int) ==> exists|k: int|
                0 <= k < unsorted.len() && unsorted[k].0 == x,
        permutes(p, unsorted.len()),
        sorted.len() == unsorted.len(),
        forall|i: int| 0 <= i < unsorted.len() ==> #[trigger] sorted[i] == unsorted[p[i]],
        forall|x: int, y: int| 0 <= x < y < sorted.len() ==> !dependent_before(#[trigger] sorted[y], #[trigger] sorted[x]),
    ensures
        forall|k: int|
            0 <= k < sorted.len() ==> {
                &&& 0 <= (#[trigger] sorted[k]).0 < u.len()
                &&& offered(g, deps, focal, excluded, u[sorted[k].0 as int].0 as int)
            },
        forall|x: int, y: int|
            0 <= x < y < sorted.len() ==> top_before(g, deps, u[(#[trigger] sorted[x]).0 as int].0 as int, u[(#[trigger] sorted[y]).0 as int].0 as int),
        forall|t: int|
            #[trigger] offered(g, deps, focal, excluded, t) ==> exists|m: int|
                0 <= m < sorted.len() && u[sorted[m].0 as int].0 as int == t,
{
    assert forall|k: int| 0 <= k < sorted.len() implies {
        &&& 0 <= (#[trigger] sorted[k]).0 < u.len()
        &&& offered(g, deps, focal, excluded, u[sorted[k].0 as int].0 as int)
    } by {
        assert(sorted[k] == unsorted[p[k]]);
    }
    assert forall|x: int, y: int| 0 <= x < y < sorted.len() implies top_before(
        g,
        deps,
        u[(#[trigger] sorted[x]).0 as int].0 as int,
        u[(#[trigger] sorted[y]).0 as int].0 as int,
    ) by {
        assert(sorted[x] == unsorted[p[x]]);
        assert(sorted[y] == unsorted[p[y]]);
        assert(p[x] != p[y]);
        let ax = sorted[x].0 as int;
        let ay = sorted[y].0 as int;
        if p[x] < p[y] {
            assert(unsorted[p[x]].0 < unsorted[p[y]].0);
        } else {
            assert(unsorted[p[y]].0 < unsorted[p[x]].0);
        }
        assert(ax != ay);
        let tx = u[ax].0 as int;
        let ty = u[ay].0 as int;
        assert(sorted[x].1 == g.packages[tx]);
        assert(sorted[y].1 == g.packages[ty]);
        assert(!dependent_before(sorted[y], sorted[x]));
        if ax < ay {
            assert(first[ax] < first[ay]);
            assert(first_at(deps, tx, first[ax]));
            assert(first_at(deps, ty, first[ay]));
            lemma_targets_distinct(deps, deps.len() as int, u, chosen, first, ax, ay);
            assert forall|m: int| 0 <= m <= first[ax] implies (#[trigger] deps[m]).package_index != ty by {
                if m == first[ax] {
                    assert(deps[m].package_index == tx);
                }
            }
            assert(appears_before(deps, tx, ty));
        }
    }
    assert forall|t: int| #[trigger] offered(g, deps, focal, excluded, t) implies exists|m: int|
        0 <= m < sorted.len() && u[sorted[m].0 as int].0 as int == t by {
        let j = choose|j: int| 0 <= j < deps.len() && (#[trigger] deps[j]).package_index == t;
        assert(covers_targets(deps, deps.len() as int, u));
        assert(exists|x: int| 0 <= x < u.len() && u[x].0 as int == deps[j].package_index) by {
            reveal(covers_targets);
        }
        let x = choose|x: int| 0 <= x < u.len() && u[x].0 as int == deps[j].package_index;
        assert(offered(g, deps, focal, excluded, u[x].0 as int));
        let e = choose|e: int| 0 <= e < unsorted.len() && unsorted[e].0 == x;
        assert(p.contains(e));
        let m = choose|m: int| 0 <= m < p.len() && p[m] == e;
        assert(sorted[m] == unsorted[e]);
    }
}

/// Keeping the first `limit` sorted targets gives `top_targets_of`.
proof fn lemma_top_targets_done(
    g: GraphModel,
    deps: Seq<StoredDependency>,
    focal: int,
    excluded: Seq<usize>,
    limit: usize,
    u: Seq<(usize, DependencyKind)>,
    sorted: Seq<(usize, StoredPackage)>,
    kept: Seq<(usize, StoredPackage)>,
    r: Seq<usize>,
)
    requires
        forall|k: int|
            0 <= k < sorted.len() ==> {
                &&& 0 <= (#[trigger] sorted[k]).0 < u.len()
                &&& offered(g, deps, focal, excluded, u[sorted[k].0 as int].0 as int)
            },
        forall|x: int, y: int|
            0 <= x < y < sorted.len() ==> top_before(g, deps, u[(#[trigger] sorted[x]).0 as int].0 as int, u[(#[trigger] sorted[y]).0 as int].0 as int),
        forall|t: int|
            #[trigger] offered(g, deps, focal, excluded, t) ==> exists|m: int|
                0 <= m < sorted.len() && u[sorted[m].0 as int].0 as int == t,
        kept.len() <= sorted.len(),
        kept.len() <= limit,
        kept.len() < sorted.len() ==> kept.len() == limit,
        forall|x: int| 0 <= x < kept.len() ==> #[trigger] kept[x] == sorted[x],
        r.len() == kept.len(),
        forall|x: int| 0 <= x < r.len() ==> #[trigger] r[x] == u[kept[x].0 as int].0,
    ensures
        top_targets_of(g, deps, focal, excluded, limit, r),
{
    assert forall|k: int| 0 <= k < r.len() implies offered(g, deps, focal, excluded, #[trigger] r[k] as int) by {
        assert(kept[k] == sorted[k]);
    }
    assert forall|a: int, b: int| 0 <= a < b < r.len() implies top_before(g, deps, #[trigger] r[a] as int, #[trigger] r[b] as int) by {
        assert(kept[a] == sorted[a]);
        assert(kept[b] == sorted[b]);
    }
    assert forall|t: int| #[trigger] offered(g, deps, focal, excluded, t) implies {
        ||| r.contains(t as usize)
        ||| r.len() == limit && forall|k: int| 0 <= k < r.len() ==> top_before(g, deps, #[trigger] r[k] as int, t)
    } by {
        let m = choose|m: int| 0 <= m < sorted.len() && u[sorted[m].0 as int].0 as int == t;
        if m < kept.len() {
            assert(kept[m] == sorted[m]);
            assert(r[m] == t as usize);
        } else {
            assert forall|k: int| 0 <= k < r.len() implies top_before(g, deps, #[trigger] r[k] as int, t) by {
                assert(kept[k] == sorted[k]);
            }
        }
    }
}

/// The first `limit` targets of the dependencies of `package` other than `focal` and those
/// in `excluded`, each once, by downloads (most first), then crate id, then the order in
/// which they are first named.
pub fn top_targets(
    graph: &StoredGraph,
    package: &StoredPackage,
    focal: usize,
    excluded: &[usize],
    limit: usize,
) -> (r: Vec<usize>)
    requires
        range_end(*package) <= graph@.dependencies.len(),
    ensures
        top_targets_of(graph@, owned_by(graph@, *package), focal as int, excluded@, limit, r@),
{
    let ghost g = graph@;
    let ghost deps = owned_by(g, *package);
    let unique = collect_unique_dependencies(graph, package);
    let ghost u = unique@;
    let ghost (chosen, first) = choose|chosen: Seq<int>, first: Seq<int>|
        unique_targets_at(deps, deps.len() as int, u, chosen, first);
    let n = graph.packages.len();
    let mut entries: Vec<(usize, StoredPackage)> = Vec::new();
    let mut a: usize = 0;
    while a < unique.len()
        invariant
            g == graph@,
            n == g.packages.len(),
            u == unique@,
            unique_targets_at(deps, deps.len() as int, u, chosen, first),
            a <= u.len(),
            forall|k: int|
                0 <= k < entries@.len() ==> {
                    &&& 0 <= (#[trigger] entries@[k]).0 < a
                    &&& offered(g, deps, focal as int, excluded@, u[entries@[k].0 as int].0 as int)
                    &&& entries@[k].1 == g.packages[u[entries@[k].0 as int].0 as int]
                },
            forall|x: int, y: int| 0 <= x < y < entries@.len() ==> (#[trigger] entries@[x]).0 < (#[trigger] entries@[y]).0,
            forall|x: int|
                0 <= x < a && offered(g, deps, focal as int, excluded@, (#[trigger] u[x]).0 as int) ==> exists|k: int|
                    0 <= k < entries@.len() && entries@[k].0 == x,
        decreases u.len() - a,
    {
        let t = unique[a].0;
        if t < n && t != focal && !holds_index(excluded, t) {
            let ghost before = entries@;
            proof {
                assert(first_at(deps, u[a as int].0 as int, first[a as int]));
                assert(targets(deps, t as int));
            }
            entries.push((a, graph.packages[t]));
            assert forall|x: int|
                0 <= x < a + 1 && offered(g, deps, focal as int, excluded@, (#[trigger] u[x]).0 as int) implies exists|k: int|
                    0 <= k < entries@.len() && entries@[k].0 == x by {
                if x == a {
                    assert(entries@[before.len() as int].0 == x);
                } else {
                    let k = choose|k: int| 0 <= k < before.len() && before[k].0 == x;
                    assert(entries@[k] == before[k]);
                }
            }
        }
        a = a + 1;
    }
    let ghost unsorted = entries@;
    sort_dependents(&mut entries);
    let ghost sorted = entries@;
    let ghost p = choose|p: Seq<int>|
        permutes(p, unsorted.len()) && forall|i: int| 0 <= i < unsorted.len() ==> #[trigger] sorted[i] == unsorted[p[i]];
    proof {
        lemma_top_targets_sorted(g, deps, focal as int, excluded@, u, chosen, first, unsorted, p, sorted);
    }
    entries.truncate(limit);
    let ghost kept = entries@;
    let mut r: Vec<usize> = Vec::new();
    let mut k: usize = 0;
    while k < entries.len()
        invariant
            u == unique@,
            entries@ == kept,
            kept.len() <= sorted.len(),
            forall|x: int| 0 <= x < kept.len() ==> #[trigger] kept[x] == sorted[x],
            forall|x: int| 0 <= x < sorted.len() ==> ((#[trigger] sorted[x]).0 as int) < u.len(),
            k <= kept.len(),
            r@.len() == k,
            forall|x: int| 0 <= x < k ==> #[trigger] r@[x] == u[kept[x].0 as int].0,
        decreases kept.len() - k,
    {
        assert(kept[k as int] == sorted[k as int]);
        r.push(unique[entries[k].0].0);
        k = k + 1;
    }
    proof {
        lemma_top_targets_done(g, deps, focal as int, excluded@, limit, u, sorted, kept, r@);
    }
    r
}


/// The slots below `n` whose list in `tops` holds `t`, in increasing order.
pub open spec fn slots_listing(tops: Seq<Vec<usize>>, n: int, t: usize) -> Seq<usize>
    decreases n,
{
    if n <= 0 {
        Seq::empty()
    } else {
        slots_listing(tops, n - 1, t) + if tops[n - 1]@.contains(t) {
            seq![(n - 1) as usize]
        } else {
            Seq::empty()
        }
    }
}

/// `r` holds each package listed in `tops` once, with its downloads and the slots whose
/// lists hold it.
pub open spec fn lists_listed(g: GraphModel, tops: Seq<Vec<usize>>, r: Seq<NeighbourCandidate>) -> bool {
    let n = tops.len() as int;
    &&& forall|k: int|
        0 <= k < r.len() ==> {
            &&& ((#[trigger] r[k]).package_index as int) < g.packages.len()
            &&& r[k].downloads == g.packages[r[k].package_index as int].downloads
            &&& r[k].parents@ == slots_listing(tops, n, r[k].package_index)
            &&& r[k].parents@.len() > 0
        }
    &&& distinct_packages(r)
    &&& forall|t: usize| #[trigger] slots_listing(tops, n, t).len() > 0 ==> exists|k: int| 0 <= k < r.len() && r[k].package_index == t
}

/// The slots `t` is expected to hold while list `s` is read up to entry `i`.
pub open spec fn listing_so_far(tops: Seq<Vec<usize>>, s: int, i: int, t: usize) -> Seq<usize> {
    slots_listing(tops, s, t) + if tops[s]@.take(i).contains(t) {
        seq![s as usize]
    } else {
        Seq::empty()
    }
}

/// The packages gathered so far from the lists, their slot lists, and where each entry is.
pub open spec fn aggregate_state(
    g: GraphModel,
    tops: Seq<Vec<usize>>,
    s: int,
    i: int,
    packages: Seq<usize>,
    lists: Seq<Vec<usize>>,
    slot_of: Seq<Option<usize>>,
) -> bool {
    let n = g.packages.len() as int;
    &&& packages.len() == lists.len()
    &&& packages.len() <= usize::MAX
    &&& tops.len() <= usize::MAX
    &&& slot_of.len() == n
    &&& forall|k: int|
        0 <= k < packages.len() ==> {
            &&& (#[trigger] packages[k] as int) < n
            &&& slot_of[packages[k] as int] == Some(k as usize)
            &&& lists[k]@ == listing_so_far(tops, s, i, packages[k])
            &&& lists[k]@.len() > 0
        }
    &&& forall|t: int|
        0 <= t < n && #[trigger] slot_of[t] is Some ==> {
            &&& (slot_of[t]->0 as int) < packages.len()
            &&& packages[slot_of[t]->0 as int] == t
        }
    &&& forall|t: usize| (t as int) < n && #[trigger] listing_so_far(tops, s, i, t).len() > 0 ==> slot_of[t as int] is Some
}

/// The lists of `tops` hold packages, each at most once per list.
pub open spec fn tops_well_formed(g: GraphModel, tops: Seq<Vec<usize>>) -> bool {
    &&& forall|s: int, i: int|
        0 <= s < tops.len() && 0 <= i < tops[s]@.len() ==> (#[trigger] tops[s]@[i] as int) < g.packages.len()
    &&& forall|s: int, i: int, j: int|
        0 <= s < tops.len() && 0 <= i < j < tops[s]@.len() ==> #[trigger] tops[s]@[i] != #[trigger] tops[s]@[j]
}

/// Entry `i` of list `s` adds slot `s` to its package.
proof fn lemma_listing_step(tops: Seq<Vec<usize>>, s: int, i: int, t: usize, x: usize)
    requires
        0 <= s < tops.len(),
        0 <= i < tops[s]@.len(),
        tops[s]@[i] == t,
        forall|a: int, b: int| 0 <= a < b < tops[s]@.len() ==> #[trigger] tops[s]@[a] != #[trigger] tops[s]@[b],
    ensures
        x == t ==> listing_so_far(tops, s, i + 1, x) == slots_listing(tops, s, x).push(s as usize),
        x == t ==> listing_so_far(tops, s, i, x) == slots_listing(tops, s, x),
        x != t ==> listing_so_far(tops, s, i + 1, x) == listing_so_far(tops, s, i, x),
{
    let l = tops[s]@;
    let front = l.take(i);
    let longer = l.take(i + 1);
    assert(longer =~= front.push(l[i]));
    if x == t {
        assert(longer.contains(t)) by {
            assert(longer[i] == t);
        }
        if front.contains(t) {
            let a = choose|a: int| 0 <= a < front.len() && front[a] == t;
            assert(l[a] == l[i]);
        }
        assert(listing_so_far(tops, s, i + 1, x) =~= slots_listing(tops, s, x).push(s as usize));
        assert(listing_so_far(tops, s, i, x) =~= slots_listing(tops, s, x));
    } else {
        if longer.contains(x) {
            let a = choose|a: int| 0 <= a < longer.len() && longer[a] == x;
            if a == i {
                assert(l[i] == x);
            }
            assert(front[a] == x);
        }
        if front.contains(x) {
            let a = choose|a: int| 0 <= a < front.len() && front[a] == x;
            assert(longer[a] == x);
        }
    }
}

/// Each package listed in `tops` once, with its downloads and the slots whose lists hold it.
pub fn aggregate_tops(graph: &StoredGraph, tops: &Vec<Vec<usize>>) -> (r: Vec<NeighbourCandidate>)
    requires
        tops_well_formed(graph@, tops@),
    ensures
        lists_listed(graph@, tops@, r@),
{
    let ghost g = graph@;
    let ghost ts = tops@;
    let n = graph.packages.len();
    let mut slot_of: Vec<Option<usize>> = Vec::new();
    let mut i: usize = 0;
    while i < n
        invariant
            i <= n,
            slot_of@.len() == i,
            forall|t: int| 0 <= t < i ==> #[trigger] slot_of@[t] is None,
        decreases n - i,
    {
        slot_of.push(None);
        i = i + 1;
    }
    let mut packages: Vec<usize> = Vec::new();
    let mut lists: Vec<Vec<usize>> = Vec::new();
    assert(tops@.len() == tops.len());
    assert forall|t: usize| #[trigger] listing_so_far(ts, 0, 0, t).len() == 0 by {
        assert(ts[0]@.take(0) =~= Seq::<usize>::empty());
        assert(listing_so_far(ts, 0, 0, t) =~= Seq::<usize>::empty());
    }
    let mut s: usize = 0;
    while s < tops.len()
        invariant
            g == graph@,
            ts == tops@,
            n == g.packages.len(),
            tops_well_formed(g, ts),
            s <= ts.len(),
            aggregate_state(g, ts, s as int, 0, packages@, lists@, slot_of@),
        decreases ts.len() - s,
    {
        let list = &tops[s];
        let mut j: usize = 0;
        while j < list.len()
            invariant
                g == graph@,
                ts == tops@,
                n == g.packages.len(),
                tops_well_formed(g, ts),
                s < ts.len(),
                list@ == ts[s as int]@,
                j <= list@.len(),
                aggregate_state(g, ts, s as int, j as int, packages@, lists@, slot_of@),
            decreases list@.len() - j,
        {
            let t = list[j];
            assert(ts[s as int]@[j as int] == t);
            let ghost before_packages = packages@;
            let ghost before_lists = lists@;
            let ghost before_slot_of = slot_of@;
            proof {
                assert forall|x: usize| {
                    &&& x == t ==> listing_so_far(ts, s as int, j + 1, x) == slots_listing(ts, s as int, x).push(s as usize)
                    &&& x == t ==> listing_so_far(ts, s as int, j as int, x) == slots_listing(ts, s as int, x)
                    &&& x != t ==> #[trigger] listing_so_far(ts, s as int, j + 1, x) == listing_so_far(ts, s as int, j as int, x)
                } by {
                    lemma_listing_step(ts, s as int, j as int, t, x);
                }
            }
            if slot_of[t].is_none() {
                let k = packages.len();
                let mut one: Vec<usize> = Vec::new();
                one.push(s);
                packages.push(t);
                lists.push(one);
                slot_of.set(t, Some(k));
                assert(packages@.len() == packages.len());
                proof {
                    assert(listing_so_far(ts, s as int, j as int, t).len() == 0);
                    assert(slots_listing(ts, s as int, t).push(s as usize) =~= seq![s as usize]);
                    assert forall|k: int| 0 <= k < packages@.len() implies {
                        &&& (#[trigger] packages@[k] as int) < n
                        &&& slot_of@[packages@[k] as int] == Some(k as usize)
                        &&& lists@[k]@ == listing_so_far(ts, s as int, j + 1, packages@[k])
                        &&& lists@[k]@.len() > 0
                    } by {
                        if k < before_packages.len() {
                            assert(packages@[k] == before_packages[k]);
                            assert(lists@[k] == before_lists[k]);
                        }
                    }
                    assert forall|x: int| 0 <= x < n && #[trigger] slot_of@[x] is Some implies {
                        &&& (slot_of@[x]->0 as int) < packages@.len()
                        &&& packages@[slot_of@[x]->0 as int] == x
                    } by {
                        if x != t {
                            assert(slot_of@[x] == before_slot_of[x]);
                        }
                    }
                    assert forall|x: usize| x < n && #[trigger] listing_so_far(ts, s as int, j + 1, x).len() > 0 implies slot_of@[x as int] is Some by {
                        if x != t {
                            assert(listing_so_far(ts, s as int, j as int, x).len() > 0);
                        }
                    }
                }
            } else {
                let k = slot_of[t].unwrap();
                let longer = with_last(&lists[k], s);
                lists.set(k, longer);
                proof {
                    assert(before_packages[k as int] == t);
                    assert forall|y: int| 0 <= y < packages@.len() implies {
                        &&& (#[trigger] packages@[y] as int) < n
                        &&& slot_of@[packages@[y] as int] == Some(y as usize)
                        &&& lists@[y]@ == listing_so_far(ts, s as int, j + 1, packages@[y])
                        &&& lists@[y]@.len() > 0
                    } by {
                        if y != k {
                            assert(lists@[y] == before_lists[y]);
                            assert(packages@[y] != t);
                        }
                    }
                    assert forall|x: usize| x < n && #[trigger] listing_so_far(ts, s as int, j + 1, x).len() > 0 implies slot_of@[x as int] is Some by {
                        if x != t {
                            assert(listing_so_far(ts, s as int, j as int, x).len() > 0);
                        }
                    }
                }
            }
            j = j + 1;
        }
        proof {
            assert forall|x: usize| #[trigger] listing_so_far(ts, s + 1, 0, x) == listing_so_far(ts, s as int, list@.len() as int, x) by {
                assert(list@.take(list@.len() as int) =~= list@);
                if s + 1 < ts.len() {
                    assert(ts[s + 1]@.take(0) =~= Seq::<usize>::empty());
                }
                assert(listing_so_far(ts, s + 1, 0, x) =~= slots_listing(ts, s + 1, x));
            }
        }
        s = s + 1;
    }
    let mut r: Vec<NeighbourCandidate> = Vec::new();
    let mut k: usize = 0;
    while k < packages.len()
        invariant
            g == graph@,
            n == g.packages.len(),
            aggregate_state(g, ts, ts.len() as int, 0, packages@, lists@, slot_of@),
            k <= packages@.len(),
            r@.len() == k,
            forall|x: int|
                0 <= x < k ==> {
                    &&& (#[trigger] r@[x]).package_index == packages@[x]
                    &&& r@[x].downloads == g.packages[packages@[x] as int].downloads
                    &&& r@[x].parents@ == lists@[x]@
                },
        decreases packages@.len() - k,
    {
        let candidate = NeighbourCandidate {
            package_index: packages[k],
            downloads: graph.packages[packages[k]].downloads,
            parents: copied(&lists[k]),
        };
        r.push(candidate);
        k = k + 1;
    }
    proof {
        let m = ts.len() as int;
        assert forall|x: usize| #[trigger] listing_so_far(ts, m, 0, x) == slots_listing(ts, m, x) by {
            assert(listing_so_far(ts, m, 0, x) =~= slots_listing(ts, m, x));
        }
        assert forall|a: int, b: int| 0 <= a < b < r@.len() implies (#[trigger] r@[a]).package_index != (#[trigger] r@[b]).package_index by {
            assert(slot_of@[packages@[a] as int] == Some(a as usize));
            assert(slot_of@[packages@[b] as int] == Some(b as usize));
        }
        assert forall|t: usize| #[trigger] slots_listing(ts, m, t).len() > 0 implies exists|k: int| 0 <= k < r@.len() && r@[k].package_index == t by {
            lemma_slots_listing_packages(g, ts, m, t);
            assert(listing_so_far(ts, m, 0, t).len() > 0);
            let k = slot_of@[t as int]->0 as int;
            assert(r@[k].package_index == t);
        }
    }
    r
}

/// Only packages are listed.
proof fn lemma_slots_listing_packages(g: GraphModel, tops: Seq<Vec<usize>>, n: int, t: usize)
    requires
        tops_well_formed(g, tops),
        n <= tops.len(),
        slots_listing(tops, n, t).len() > 0,
    ensures
        t < g.packages.len(),
    decreases n,
{
    if n > 0 {
        if slots_listing(tops, n - 1, t).len() > 0 {
            lemma_slots_listing_packages(g, tops, n - 1, t);
        } else {
            let last = tops[n - 1]@;
            assert(last.contains(t));
            let i = choose|i: int| 0 <= i < last.len() && last[i] == t;
            assert(tops[n - 1]@[i] as int == t);
        }
    }
}


/// The rings of the focus view around one package: its direct dependencies, the packages
/// they depend on most, grouped by the first direct dependency listing them, and the
/// package's dependents.
pub struct FocusRings {
    pub direct: Vec<(usize, DependencyKind)>,
    pub secondary: Vec<NeighbourCandidate>,
    pub secondary_groups: Vec<(usize, Vec<usize>)>,
    pub dependents: Vec<(usize, StoredPackage)>,
}

/// How many direct dependencies the secondary ring of the focus view looks below.
pub open spec fn focus_slot_count(direct_len: int) -> int {
    if direct_len < FOCUS_PARENT_SLOTS {
        direct_len
    } else {
        FOCUS_PARENT_SLOTS as int
    }
}

/// `tops` holds, for each of the first direct dependencies in `direct`, its top targets:
/// up to `FOCUS_PER_SLOT` of them, leaving out `focal` and the direct dependencies.
pub open spec fn focus_tops(g: GraphModel, focal: int, direct: Seq<(usize, DependencyKind)>, tops: Seq<Vec<usize>>) -> bool {
    let direct_targets = direct.map_values(|e: (usize, DependencyKind)| e.0);
    &&& tops.len() == focus_slot_count(direct.len() as int)
    &&& forall|s: int|
        0 <= s < tops.len() ==> top_targets_of(
            g,
            owned_by(g, g.packages[direct[s].0 as int]),
            focal,
            direct_targets,
            FOCUS_PER_SLOT,
            (#[trigger] tops[s])@,
        )
}

/// `rings` are the rings of the focus view around package `focal`.
pub open spec fn focus_rings_of(g: GraphModel, focal: int, rings: FocusRings) -> bool {
    &&& exists|pos: Seq<int>| neighbours_at(g, g.packages[focal], FOCUS_DIRECT, rings.direct@, pos)
    &&& exists|tops: Seq<Vec<usize>>, c: Seq<NeighbourCandidate>|
        focus_tops(g, focal, rings.direct@, tops) && lists_listed(g, tops, c) && ranks_first(
            c,
            FOCUS_SECONDARY,
            rings.secondary@,
        )
    &&& groups_by_first_parent(
        rings.secondary@,
        focus_slot_count(rings.direct@.len() as int) as usize,
        rings.secondary_groups@,
    )
    &&& lists_dependents(g, focal, FOCUS_DEPENDENTS, rings.dependents@)
}

/// Each slot in `slots_listing(tops, n, t)` is one of the first `n` lists, and its list
/// holds `t`.
proof fn lemma_slots_listing_members(tops: Seq<Vec<usize>>, n: int, t: usize)
    requires
        n <= tops.len(),
        n <= usize::MAX,
    ensures
        forall|j: int|
            0 <= j < slots_listing(tops, n, t).len() ==> {
                &&& (#[trigger] slots_listing(tops, n, t)[j] as int) < n
                &&& tops[slots_listing(tops, n, t)[j] as int]@.contains(t)
            },
    decreases n,
{
    if n > 0 {
        lemma_slots_listing_members(tops, n - 1, t);
        let before = slots_listing(tops, n - 1, t);
        let all = slots_listing(tops, n, t);
        assert forall|j: int| 0 <= j < all.len() implies {
            &&& (#[trigger] all[j] as int) < n
            &&& tops[all[j] as int]@.contains(t)
        } by {
            let tail: Seq<usize> = if tops[n - 1]@.contains(t) {
                seq![(n - 1) as usize]
            } else {
                Seq::empty()
            };
            assert(all == before + tail);
            if j < before.len() {
                assert(all[j] == before[j]);
            } else {
                assert(all[j] == tail[j - before.len()]);
                assert(tops[n - 1]@.contains(t));
            }
        }
    }
}

/// The secondary ring of the focus view only looks below the first fourteen
/// (`FOCUS_PARENT_SLOTS`) direct dependencies: every slot a secondary package hangs from is one of them, and
/// the package is a dependency of the package in that slot.
pub proof fn lemma_focus_secondary_from_first_slots(g: GraphModel, focal: int, rings: FocusRings)
    requires
        focus_rings_of(g, focal, rings),
    ensures
        forall|k: int, j: int|
            0 <= k < rings.secondary@.len() && 0 <= j < rings.secondary@[k].parents@.len() ==> {
                let slot = #[trigger] rings.secondary@[k].parents@[j];
                &&& slot < 14
                &&& (slot as int) < rings.direct@.len()
                &&& targets(
                    owned_by(g, g.packages[rings.direct@[slot as int].0 as int]),
                    rings.secondary@[k].package_index as int,
                )
            },
{
    let (tops, c) = choose|tops: Seq<Vec<usize>>, c: Seq<NeighbourCandidate>|
        focus_tops(g, focal, rings.direct@, tops) && lists_listed(g, tops, c) && ranks_first(
            c,
            FOCUS_SECONDARY,
            rings.secondary@,
        );
    let direct = rings.direct@;
    let direct_targets = direct.map_values(|e: (usize, DependencyKind)| e.0);
    let n = tops.len() as int;
    assert(n <= FOCUS_PARENT_SLOTS && n <= direct.len());
    assert forall|k: int, j: int|
        0 <= k < rings.secondary@.len() && 0 <= j < rings.secondary@[k].parents@.len() implies {
            let slot = #[trigger] rings.secondary@[k].parents@[j];
            &&& slot < 14
            &&& (slot as int) < rings.direct@.len()
            &&& targets(
                owned_by(g, g.packages[rings.direct@[slot as int].0 as int]),
                rings.secondary@[k].package_index as int,
            )
        } by {
        let cand = rings.secondary@[k];
        assert(c.contains(cand));
        let x = choose|x: int| 0 <= x < c.len() && c[x] == cand;
        let t = cand.package_index;
        assert(cand.parents@ == slots_listing(tops, n, t));
        lemma_slots_listing_members(tops, n, t);
        let slot = cand.parents@[j];
        assert(slots_listing(tops, n, t)[j] == slot);
        assert(tops[slot as int]@.contains(t));
        let y = choose|y: int| 0 <= y < tops[slot as int]@.len() && tops[slot as int]@[y] == t;
        assert(top_targets_of(
            g,
            owned_by(g, g.packages[direct[slot as int].0 as int]),
            focal,
            direct_targets,
            FOCUS_PER_SLOT,
            tops[slot as int]@,
        ));
        assert(offered(g, owned_by(g, g.packages[direct[slot as int].0 as int]), focal, direct_targets, tops[slot as int]@[y] as int));
    }
}

/// The rings of the focus view around package `focal_index`: up to `FOCUS_DIRECT` direct
/// dependencies; below each of the first `FOCUS_PARENT_SLOTS` of them, its top
/// `FOCUS_PER_SLOT` targets other than the focused package and its direct dependencies;
/// the `FOCUS_SECONDARY` of those listed most often (then most downloaded, then by
/// package), grouped by the first direct dependency listing them; and up to
/// `FOCUS_DEPENDENTS` dependents.
pub fn focus_rings(graph: &StoredGraph, focal_index: usize) -> (r: FocusRings)
    requires
        slices_in_range(graph@),
        focal_index < graph@.packages.len(),
    ensures
        focus_rings_of(graph@, focal_index as int, r),
{
    let ghost g = graph@;
    let n = graph.packages.len();
    assert(range_end(g.packages[focal_index as int]) <= g.dependencies.len());
    let direct = select_direct_neighbours(graph, &graph.packages[focal_index], FOCUS_DIRECT);
    let ghost pos = choose|pos: Seq<int>| neighbours_at(g, g.packages[focal_index as int], FOCUS_DIRECT, direct@, pos);
    let ghost deps = owned_by(g, g.packages[focal_index as int]);
    assert forall|k: int| 0 <= k < direct@.len() implies ((#[trigger] direct@[k]).0 as int) < n by {
        assert(names_target(g, deps, pos[k]));
    }
    let targets = direct_packages(&direct);
    let slot_count = if direct.len() < FOCUS_PARENT_SLOTS {
        direct.len()
    } else {
        FOCUS_PARENT_SLOTS
    };
    let mut tops: Vec<Vec<usize>> = Vec::new();
    let mut s: usize = 0;
    while s < slot_count
        invariant
            g == graph@,
            n == g.packages.len(),
            slices_in_range(g),
            slot_count <= direct@.len(),
            slot_count == focus_slot_count(direct@.len() as int),
            forall|k: int| 0 <= k < direct@.len() ==> ((#[trigger] direct@[k]).0 as int) < n,
            targets@ == direct@.map_values(|e: (usize, DependencyKind)| e.0),
            s <= slot_count,
            tops@.len() == s,
            forall|x: int|
                0 <= x < s ==> top_targets_of(
                    g,
                    owned_by(g, g.packages[direct@[x].0 as int]),
                    focal_index as int,
                    targets@,
                    FOCUS_PER_SLOT,
                    (#[trigger] tops@[x])@,
                ),
        decreases slot_count - s,
    {
        let p = direct[s].0;
        assert(direct@[s as int].0 == p);
        assert(range_end(g.packages[p as int]) <= g.dependencies.len());
        let top = top_targets(graph, &graph.packages[p], focal_index, targets.as_slice(), FOCUS_PER_SLOT);
        tops.push(top);
        s = s + 1;
    }
    proof {
        assert forall|x: int, i: int| 0 <= x < tops@.len() && 0 <= i < tops@[x]@.len() implies (#[trigger] tops@[x]@[i] as int) < g.packages.len() by {
            let d = owned_by(g, g.packages[direct@[x].0 as int]);
            assert(top_targets_of(g, d, focal_index as int, targets@, FOCUS_PER_SLOT, tops@[x]@));
            assert(offered(g, d, focal_index as int, targets@, tops@[x]@[i] as int));
        }
        assert forall|x: int, i: int, j: int| 0 <= x < tops@.len() && 0 <= i < j < tops@[x]@.len() implies #[trigger] tops@[x]@[i] != #[trigger] tops@[x]@[j] by {
            let d = owned_by(g, g.packages[direct@[x].0 as int]);
            assert(top_targets_of(g, d, focal_index as int, targets@, FOCUS_PER_SLOT, tops@[x]@));
            assert(top_before(g, d, tops@[x]@[i] as int, tops@[x]@[j] as int));
            if tops@[x]@[i] == tops@[x]@[j] {
                lemma_top_before_irreflexive(g, d, tops@[x]@[i] as int);
            }
        }
    }
    let secondary_all = aggregate_tops(graph, &tops);
    let ghost c = secondary_all@;
    let secondary = rank_candidates(secondary_all, FOCUS_SECONDARY);
    let secondary_groups = group_by_first_parent(&secondary, slot_count);
    let dependents = collect_dependents_sorted(graph, focal_index, FOCUS_DEPENDENTS);
    let rings = FocusRings { direct, secondary, secondary_groups, dependents };
    assert(focus_tops(g, focal_index as int, rings.direct@, tops@));
    assert(neighbours_at(g, g.packages[focal_index as int], FOCUS_DIRECT, rings.direct@, pos));
    rings
}

/// No target ranks above itself.
proof fn lemma_top_before_irreflexive(g: GraphModel, deps: Seq<StoredDependency>, t: int)
    ensures
        !top_before(g, deps, t, t),
{
    if appears_before(deps, t, t) {
        let j = choose|j: int|
            0 <= j < deps.len() && (#[trigger] deps[j]).package_index == t && forall|m: int|
                0 <= m <= j ==> (#[trigger] deps[m]).package_index != t;
        assert(deps[j].package_index != t);
    }
}


// ---------------------------------------------------------------------------
// The global layout.
// ---------------------------------------------------------------------------

/// `r` lists every package once, by downloads (most first), then crate id, then position:
/// the rank order of the global layout.
pub open spec fn ranks_packages(g: GraphModel, r: Seq<usize>) -> bool {
    &&& r.len() == g.packages.len()
    &&& forall|k: int| 0 <= k < r.len() ==> (#[trigger] r[k] as int) < g.packages.len()
    &&& forall|a: int, b: int|
        0 <= a < b < r.len() ==> dependent_before(
            (#[trigger] r[a], g.packages[r[a] as int]),
            (#[trigger] r[b], g.packages[r[b] as int]),
        )
}

/// The packages in the rank order of the global layout: by downloads, most first, then by
/// crate id, then by position.
pub fn layout_order(graph: &StoredGraph) -> (r: Vec<usize>)
    ensures
        ranks_packages(graph@, r@),
{
    let ghost g = graph@;
    let n = graph.packages.len();
    let mut entries: Vec<(usize, StoredPackage)> = Vec::new();
    let mut i: usize = 0;
    while i < n
        invariant
            g == graph@,
            n == g.packages.len(),
            i <= n,
            entries@.len() == i,
            forall|k: int| 0 <= k < i ==> #[trigger] entries@[k] == (k as usize, g.packages[k]),
        decreases n - i,
    {
        entries.push((i, graph.packages[i]));
        i = i + 1;
    }
    let ghost unsorted = entries@;
    sort_dependents(&mut entries);
    let ghost sorted = entries@;
    let ghost p = choose|p: Seq<int>|
        permutes(p, unsorted.len()) && forall|i: int| 0 <= i < unsorted.len() ==> #[trigger] sorted[i] == unsorted[p[i]];
    let mut r: Vec<usize> = Vec::new();
    let mut k: usize = 0;
    while k < entries.len()
        invariant
            entries@ == sorted,
            k <= sorted.len(),
            r@.len() == k,
            forall|x: int| 0 <= x < k ==> #[trigger] r@[x] == sorted[x].0,
        decreases sorted.len() - k,
    {
        r.push(entries[k].0);
        k = k + 1;
    }
    assert forall|x: int| 0 <= x < sorted.len() implies (#[trigger] sorted[x]) == (sorted[x].0, g.packages[sorted[x].0 as int]) && (sorted[x].0 as int) < n by {
        assert(sorted[x] == unsorted[p[x]]);
    }
    assert forall|a: int, b: int| 0 <= a < b < r@.len() implies dependent_before(
        (#[trigger] r@[a], g.packages[r@[a] as int]),
        (#[trigger] r@[b], g.packages[r@[b] as int]),
    ) by {
        assert(sorted[a] == unsorted[p[a]]);
        assert(sorted[b] == unsorted[p[b]]);
        assert(p[a] != p[b]);
        assert(!dependent_before(sorted[b], sorted[a]));
    }
    r
}


/// At most this many sample packages describe a cluster.
pub const CLUSTER_SAMPLES: usize = 5usize;

/// What the global layout tells about a cluster of packages, besides where it lies.
pub struct ClusterSummary {
    pub count: u32,
    pub total_downloads: u64,
    pub max_downloads: u64,
    pub top_package_index: usize,
    pub dependency_count: u32,
    pub dependent_count: u32,
    pub sample_packages: Vec<usize>,
}

/// `n`, or `u64::MAX` when it does not fit.
pub open spec fn capped_u64(n: nat) -> u64 {
    if n < u64::MAX {
        n as u64
    } else {
        u64::MAX
    }
}

/// The total downloads of the packages `m`.
pub open spec fn downloads_sum(g: GraphModel, m: Seq<usize>) -> nat
    decreases m.len(),
{
    if m.len() == 0 {
        0
    } else {
        downloads_sum(g, m.drop_last()) + g.packages[m.last() as int].downloads as nat
    }
}

/// The total number of dependencies of the packages `m`.
pub open spec fn dependency_sum(g: GraphModel, m: Seq<usize>) -> nat
    decreases m.len(),
{
    if m.len() == 0 {
        0
    } else {
        dependency_sum(g, m.drop_last()) + g.packages[m.last() as int].dependency_count as nat
    }
}

/// The total of `counts` over the packages `m`.
pub open spec fn dependent_sum(counts: Seq<u32>, m: Seq<usize>) -> nat
    decreases m.len(),
{
    if m.len() == 0 {
        0
    } else {
        dependent_sum(counts, m.drop_last()) + counts[m.last() as int] as nat
    }
}

/// The most downloads among the packages `m` (zero for none).
pub open spec fn downloads_max(g: GraphModel, m: Seq<usize>) -> u64
    decreases m.len(),
{
    if m.len() == 0 {
        0
    } else {
        let before = downloads_max(g, m.drop_last());
        let last = g.packages[m.last() as int].downloads;
        if last >= before {
            last
        } else {
            before
        }
    }
}

/// Position `k` of `m` holds the last package with the most downloads.
pub open spec fn last_top(g: GraphModel, m: Seq<usize>, k: int) -> bool {
    &&& 0 <= k < m.len()
    &&& g.packages[m[k] as int].downloads == downloads_max(g, m)
    &&& forall|j: int| k < j < m.len() ==> g.packages[(#[trigger] m[j]) as int].downloads < downloads_max(g, m)
}

/// Position `j` of `m` comes before position `k` among a cluster's samples.
pub open spec fn sample_before(g: GraphModel, m: Seq<usize>, j: int, k: int) -> bool {
    dependent_before((j as usize, g.packages[m[j] as int]), (k as usize, g.packages[m[k] as int]))
}

/// `r` holds the packages at positions `pos` of `m`: the first `limit` of `m` by downloads
/// (most first), then crate id, then position.
pub open spec fn samples_at(g: GraphModel, m: Seq<usize>, limit: usize, r: Seq<usize>, pos: Seq<int>) -> bool {
    &&& pos.len() == r.len()
    &&& r.len() <= limit
    &&& forall|k: int| 0 <= k < r.len() ==> 0 <= #[trigger] pos[k] < m.len() && r[k] == m[pos[k]]
    &&& forall|a: int, b: int| 0 <= a < b < r.len() ==> sample_before(g, m, #[trigger] pos[a], #[trigger] pos[b])
    &&& forall|j: int|
        0 <= j < m.len() ==> {
            ||| pos.contains(j)
            ||| r.len() == limit && forall|k: int| 0 <= k < r.len() ==> sample_before(g, m, #[trigger] pos[k], j)
        }
}

/// `c` summarises the cluster of packages `m`: how many (stopping at `u32::MAX`), their
/// total downloads (stopping at `u64::MAX`), the most downloads and the last package with
/// them, the average numbers of dependencies and dependents (of the capped totals, taken
/// to 32 bits), and up to `CLUSTER_SAMPLES` samples.
pub open spec fn summarises(g: GraphModel, counts: Seq<u32>, m: Seq<usize>, c: ClusterSummary) -> bool {
    let count = saturated(m.len());
    let divisor: int = if count == 0 {
        1int
    } else {
        count as int
    };
    &&& c.count == count
    &&& c.total_downloads == capped_u64(downloads_sum(g, m))
    &&& c.max_downloads == downloads_max(g, m)
    &&& exists|k: int| last_top(g, m, k) && c.top_package_index == m[k]
    &&& c.dependency_count == ((capped_u64(dependency_sum(g, m)) as int) / divisor) as u32
    &&& c.dependent_count == ((capped_u64(dependent_sum(counts, m)) as int) / divisor) as u32
    &&& exists|pos: Seq<int>| samples_at(g, m, CLUSTER_SAMPLES, c.sample_packages@, pos)
}

/// The summary of the cluster of packages `members`, taken in order.
pub fn summarize_cluster(graph: &StoredGraph, dependent_counts: &[u32], members: &[usize]) -> (r: ClusterSummary)
    requires
        members@.len() > 0,
        forall|k: int| 0 <= k < members@.len() ==> (#[trigger] members@[k] as int) < graph@.packages.len(),
        forall|k: int| 0 <= k < members@.len() ==> (#[trigger] members@[k] as int) < dependent_counts@.len(),
    ensures
        summarises(graph@, dependent_counts@, members@, r),
{
    let ghost g = graph@;
    let ghost m = members@;
    let mut count: u32 = 0;
    let mut total_downloads: u64 = 0;
    let mut max_downloads: u64 = 0;
    let mut top: usize = members[0];
    let ghost mut top_at: int = 0;
    let mut dependencies: u64 = 0;
    let mut dependents: u64 = 0;
    assert(m.take(0) =~= Seq::<usize>::empty());
    let mut i: usize = 0;
    while i < members.len()
        invariant
            g == graph@,
            m == members@,
            m.len() > 0,
            forall|k: int| 0 <= k < m.len() ==> (#[trigger] m[k] as int) < g.packages.len(),
            forall|k: int| 0 <= k < m.len() ==> (#[trigger] m[k] as int) < dependent_counts@.len(),
            i <= m.len(),
            count == saturated(i as nat),
            total_downloads == capped_u64(downloads_sum(g, m.take(i as int))),
            max_downloads == downloads_max(g, m.take(i as int)),
            dependencies == capped_u64(dependency_sum(g, m.take(i as int))),
            dependents == capped_u64(dependent_sum(dependent_counts@, m.take(i as int))),
            i == 0 ==> top == m[0],
            i > 0 ==> last_top(g, m.take(i as int), top_at) && top == m[top_at],
        decreases m.len() - i,
    {
        let package = &graph.packages[members[i]];
        let ghost prefix = m.take(i as int);
        let ghost next = m.take(i + 1);
        assert(next.drop_last() =~= prefix);
        assert(next.last() == m[i as int]);
        count = count.saturating_add(1);
        total_downloads = total_downloads.saturating_add(package.downloads);
        dependencies = dependencies.saturating_add(package.dependency_count as u64);
        dependents = dependents.saturating_add(dependent_counts[members[i]] as u64);
        if package.downloads >= max_downloads {
            max_downloads = package.downloads;
            top = members[i];
            proof {
                top_at = i as int;
            }
        } else {
            assert forall|j: int| top_at < j < next.len() implies g.packages[(#[trigger] next[j]) as int].downloads
                < downloads_max(g, next) by {
                if j < i {
                    assert(next[j] == prefix[j]);
                }
            }
        }
        proof {
            if i > 0 || package.downloads >= max_downloads {
                assert(last_top(g, next, top_at));
            }
        }
        i = i + 1;
    }
    assert(m.take(m.len() as int) =~= m);
    let divisor: u64 = if count == 0 {
        1
    } else {
        count as u64
    };
    let samples = top_members(graph, members, CLUSTER_SAMPLES);
    let ghost sv = samples@;
    let ghost chosen_pos = choose|pos: Seq<int>| samples_at(g, m, CLUSTER_SAMPLES, sv, pos);
    let r = ClusterSummary {
        count,
        total_downloads,
        max_downloads,
        top_package_index: top,
        dependency_count: (dependencies / divisor) as u32,
        dependent_count: (dependents / divisor) as u32,
        sample_packages: samples,
    };
    assert(last_top(g, m, top_at));
    assert(r.sample_packages@ == sv);
    assert(samples_at(g, m, CLUSTER_SAMPLES, r.sample_packages@, chosen_pos));
    r
}

/// The first `limit` of the packages `members` by downloads (most first), then crate id,
/// then position.
fn top_members(graph: &StoredGraph, members: &[usize], limit: usize) -> (r: Vec<usize>)
    requires
        forall|k: int| 0 <= k < members@.len() ==> (#[trigger] members@[k] as int) < graph@.packages.len(),
    ensures
        exists|pos: Seq<int>| samples_at(graph@, members@, limit, r@, pos),
{
    let ghost g = graph@;
    let ghost m = members@;
    let mut entries: Vec<(usize, StoredPackage)> = Vec::new();
    let mut i: usize = 0;
    while i < members.len()
        invariant
            g == graph@,
            m == members@,
            forall|k: int| 0 <= k < m.len() ==> (#[trigger] m[k] as int) < g.packages.len(),
            i <= m.len(),
            entries@.len() == i,
            forall|k: int| 0 <= k < i ==> #[trigger] entries@[k] == (k as usize, g.packages[m[k] as int]),
        decreases m.len() - i,
    {
        entries.push((i, graph.packages[members[i]]));
        i = i + 1;
    }
    let ghost unsorted = entries@;
    sort_dependents(&mut entries);
    let ghost sorted = entries@;
    let ghost p = choose|p: Seq<int>|
        permutes(p, unsorted.len()) && forall|i: int| 0 <= i < unsorted.len() ==> #[trigger] sorted[i] == unsorted[p[i]];
    assert forall|x: int| 0 <= x < sorted.len() implies (#[trigger] sorted[x]) == (sorted[x].0, g.packages[m[sorted[x].0 as int] as int]) && (sorted[x].0 as int) < m.len() by {
        assert(sorted[x] == unsorted[p[x]]);
    }
    assert forall|a: int, b: int| 0 <= a < b < sorted.len() implies dependent_before(#[trigger] sorted[a], #[trigger] sorted[b]) by {
        assert(sorted[a] == unsorted[p[a]]);
        assert(sorted[b] == unsorted[p[b]]);
        assert(p[a] != p[b]);
        assert(!dependent_before(sorted[b], sorted[a]));
    }
    assert forall|j: int| 0 <= j < unsorted.len() implies exists|x: int| 0 <= x < sorted.len() && sorted[x] == #[trigger] unsorted[j] by {
        assert(p.contains(j));
        let x = choose|x: int| 0 <= x < p.len() && p[x] == j;
        assert(sorted[x] == unsorted[j]);
    }
    entries.truncate(limit);
    let ghost kept = entries@;
    let mut r: Vec<usize> = Vec::new();
    let mut k: usize = 0;
    while k < entries.len()
        invariant
            m == members@,
            entries@ == kept,
            kept.len() <= sorted.len(),
            forall|x: int| 0 <= x < kept.len() ==> #[trigger] kept[x] == sorted[x],
            forall|x: int| 0 <= x < sorted.len() ==> ((#[trigger] sorted[x]).0 as int) < m.len(),
            k <= kept.len(),
            r@.len() == k,
            forall|x: int| 0 <= x < k ==> #[trigger] r@[x] == m[kept[x].0 as int],
        decreases kept.len() - k,
    {
        assert(kept[k as int] == sorted[k as int]);
        r.push(members[entries[k].0]);
        k = k + 1;
    }
    let ghost pos = kept.map_values(|e: (usize, StoredPackage)| e.0 as int);
    assert forall|a: int, b: int| 0 <= a < b < r@.len() implies sample_before(g, m, #[trigger] pos[a], #[trigger] pos[b]) by {
        assert(kept[a] == sorted[a]);
        assert(kept[b] == sorted[b]);
        assert(dependent_before(sorted[a], sorted[b]));
    }
    assert forall|j: int| 0 <= j < m.len() implies {
        ||| pos.contains(j)
        ||| r@.len() == limit && forall|k: int| 0 <= k < r@.len() ==> sample_before(g, m, #[trigger] pos[k], j)
    } by {
        assert(unsorted[j] == (j as usize, g.packages[m[j] as int]));
        let x = choose|x: int| 0 <= x < sorted.len() && sorted[x] == unsorted[j];
        if x < kept.len() {
            assert(kept[x] == sorted[x]);
            assert(pos[x] == j);
        } else {
            assert forall|k: int| 0 <= k < r@.len() implies sample_before(g, m, #[trigger] pos[k], j) by {
                assert(kept[k] == sorted[k]);
                assert(dependent_before(sorted[k], sorted[x]));
            }
        }
    }
    assert forall|k: int| 0 <= k < r@.len() implies 0 <= #[trigger] pos[k] < m.len() && r@[k] == m[pos[k]] by {
        assert(kept[k] == sorted[k]);
    }
    assert(samples_at(g, m, limit, r@, pos));
    r
}


impl GraphHandle {
    /// The rings of the dependency view around the package that `package_by_name` finds for
    /// `name`, with that package's position; `None` when no package has that name. (The
    /// view's positions and colours are laid out from these rings.)
    pub fn dependency_focus(&self, name: &str) -> (r: Option<(usize, DependencyRings)>)
        ensures
            r is Some <==> trimmed(name@).len() > 0 && exists|j: int|
                0 <= j < self@.packages.len() && package_named(
                    self@,
                    #[trigger] self@.packages[j],
                    trimmed(name@),
                ),
            r matches Some((i, rings)) ==> {
                &&& is_best_named(self@, trimmed(name@), i as int)
                &&& dependency_rings_of(self@, i as int, rings)
            },
    {
        proof {
            use_type_invariant(self);
        }
        assert(self@ == self.graph@);
        match self.graph.package_by_name(name) {
            Some((index, _package)) => Some((index, dependency_rings(&self.graph, index))),
            None => None,
        }
    }

    /// The rings of the focus view around the package that `package_by_name` finds for
    /// `name`, with that package's position; `None` when no package has that name. (The
    /// scene's positions and colours are laid out from these rings.)
    pub fn focal_scene(&self, name: &str) -> (r: Option<(usize, FocusRings)>)
        ensures
            r is Some <==> trimmed(name@).len() > 0 && exists|j: int|
                0 <= j < self@.packages.len() && package_named(
                    self@,
                    #[trigger] self@.packages[j],
                    trimmed(name@),
                ),
            r matches Some((i, rings)) ==> {
                &&& is_best_named(self@, trimmed(name@), i as int)
                &&& focus_rings_of(self@, i as int, rings)
            },
    {
        proof {
            use_type_invariant(self);
        }
        assert(self@ == self.graph@);
        match self.graph.package_by_name(name) {
            Some((index, _package)) => Some((index, focus_rings(&self.graph, index))),
            None => None,
        }
    }
}


/// A package with hanging slots hangs from one of them.
proof fn lemma_hanging_slot_exists(g: GraphModel, ring: RingModel, n: int, t: int)
    requires
        hanging_slots(g, ring, n, t).len() > 0,
    ensures
        exists|s: int| 0 <= s < n && hangs_from(g, ring, s, t),
    decreases n,
{
    if n > 0 {
        if hanging_slots(g, ring, n - 1, t).len() > 0 {
            lemma_hanging_slot_exists(g, ring, n - 1, t);
        } else {
            assert(hangs_from(g, ring, n - 1, t));
        }
    }
}

/// A ranked ring only holds packages that may join it.
proof fn lemma_ranked_ring_joins(g: GraphModel, ring: RingModel, limit: usize, r: Seq<NeighbourCandidate>)
    requires
        ranked_ring(g, ring, limit, r),
    ensures
        forall|k: int| 0 <= k < r.len() ==> may_join(g, ring, (#[trigger] r[k]).package_index as int),
{
    let c = choose|c: Seq<NeighbourCandidate>| lists_ring(g, ring, c) && ranks_first(c, limit, r);
    assert forall|k: int| 0 <= k < r.len() implies may_join(g, ring, (#[trigger] r[k]).package_index as int) by {
        assert(c.contains(r[k]));
        let x = choose|x: int| 0 <= x < c.len() && c[x] == r[k];
        let t = c[x].package_index as int;
        assert(hanging_slots(g, ring, ring.slots.len() as int, t).len() > 0);
        lemma_hanging_slot_exists(g, ring, ring.slots.len() as int, t);
    }
}

/// In the dependency view no package appears in two rings: the second ring holds neither
/// the focused package nor a direct dependency, and the outer ring holds neither these nor
/// a package of the second ring, only packages without dependencies of their own.
pub proof fn lemma_dependency_rings_disjoint(g: GraphModel, focal: int, rings: DependencyRings)
    requires
        dependency_rings_of(g, focal, rings),
    ensures
        forall|k: int|
            0 <= k < rings.secondary@.len() ==> {
                let t = (#[trigger] rings.secondary@[k]).package_index;
                &&& t as int != focal
                &&& forall|d: int| 0 <= d < rings.direct@.len() ==> rings.direct@[d].0 != t
            },
        forall|k: int|
            0 <= k < rings.tertiary@.len() ==> {
                let t = (#[trigger] rings.tertiary@[k]).package_index;
                &&& t as int != focal
                &&& forall|d: int| 0 <= d < rings.direct@.len() ==> rings.direct@[d].0 != t
                &&& !rings.secondary_slots@.contains(t)
                &&& g.packages[t as int].dependency_count == 0
            },
{
    let direct = rings.direct@.map_values(|e: (usize, DependencyKind)| e.0);
    let slots = rings.secondary_slots@;
    let ring2 = RingModel { focal, slots: direct, excluded: direct, leaves_only: false };
    let ring3 = RingModel { focal, slots, excluded: direct + slots, leaves_only: true };
    lemma_ranked_ring_joins(g, ring2, MAX_SECONDARY, rings.secondary@);
    lemma_ranked_ring_joins(g, ring3, MAX_TERTIARY_LEAVES, rings.tertiary@);
    assert forall|k: int| 0 <= k < rings.secondary@.len() implies {
        let t = (#[trigger] rings.secondary@[k]).package_index;
        &&& t as int != focal
        &&& forall|d: int| 0 <= d < rings.direct@.len() ==> rings.direct@[d].0 != t
    } by {
        let t = rings.secondary@[k].package_index;
        assert(may_join(g, ring2, t as int));
        assert forall|d: int| 0 <= d < rings.direct@.len() implies rings.direct@[d].0 != t by {
            assert(direct[d] == rings.direct@[d].0);
        }
    }
    assert forall|k: int| 0 <= k < rings.tertiary@.len() implies {
        let t = (#[trigger] rings.tertiary@[k]).package_index;
        &&& t as int != focal
        &&& forall|d: int| 0 <= d < rings.direct@.len() ==> rings.direct@[d].0 != t
        &&& !rings.secondary_slots@.contains(t)
        &&& g.packages[t as int].dependency_count == 0
    } by {
        let t = rings.tertiary@[k].package_index;
        assert(may_join(g, ring3, t as int));
        assert forall|d: int| 0 <= d < rings.direct@.len() implies rings.direct@[d].0 != t by {
            assert((direct + slots)[d] == rings.direct@[d].0);
        }
        if slots.contains(t) {
            let i = choose|i: int| 0 <= i < slots.len() && slots[i] == t;
            assert((direct + slots)[direct.len() + i] == t);
        }
    }
}

/// A package with listing slots is in one of the lists.
proof fn lemma_listing_slot_exists(tops: Seq<Vec<usize>>, n: int, t: usize)
    requires
        slots_listing(tops, n, t).len() > 0,
    ensures
        exists|s: int| 0 <= s < n && tops[s]@.contains(t),
    decreases n,
{
    if n > 0 {
        if slots_listing(tops, n - 1, t).len() > 0 {
            lemma_listing_slot_exists(tops, n - 1, t);
        } else {
            assert(tops[n - 1]@.contains(t));
        }
    }
}

/// In the focus view the second ring holds neither the focused package nor a direct
/// dependency.
pub proof fn lemma_focus_rings_disjoint(g: GraphModel, focal: int, rings: FocusRings)
    requires
        focus_rings_of(g, focal, rings),
    ensures
        forall|k: int|
            0 <= k < rings.secondary@.len() ==> {
                let t = (#[trigger] rings.secondary@[k]).package_index;
                &&& t as int != focal
                &&& forall|d: int| 0 <= d < rings.direct@.len() ==> rings.direct@[d].0 != t
            },
{
    let (tops, c) = choose|tops: Seq<Vec<usize>>, c: Seq<NeighbourCandidate>|
        focus_tops(g, focal, rings.direct@, tops) && lists_listed(g, tops, c) && ranks_first(
            c,
            FOCUS_SECONDARY,
            rings.secondary@,
        );
    let direct = rings.direct@.map_values(|e: (usize, DependencyKind)| e.0);
    assert forall|k: int| 0 <= k < rings.secondary@.len() implies {
        let t = (#[trigger] rings.secondary@[k]).package_index;
        &&& t as int != focal
        &&& forall|d: int| 0 <= d < rings.direct@.len() ==> rings.direct@[d].0 != t
    } by {
        let t = rings.secondary@[k].package_index;
        assert(c.contains(rings.secondary@[k]));
        let x = choose|x: int| 0 <= x < c.len() && c[x] == rings.secondary@[k];
        lemma_listing_slot_exists(tops, tops.len() as int, t);
        let s = choose|s: int| 0 <= s < tops.len() && tops[s]@.contains(t);
        let d_s = owned_by(g, g.packages[rings.direct@[s].0 as int]);
        assert(top_targets_of(g, d_s, focal, direct, FOCUS_PER_SLOT, tops[s]@));
        let i = choose|i: int| 0 <= i < tops[s]@.len() && tops[s]@[i] == t;
        assert(offered(g, d_s, focal, direct, tops[s]@[i] as int));
        assert forall|d: int| 0 <= d < rings.direct@.len() implies rings.direct@[d].0 != t by {
            assert(direct[d] == rings.direct@[d].0);
        }
    }
}

} // verus!
