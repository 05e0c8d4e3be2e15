//! Reachability, strongly connected components and dependency depth on a
//! directed graph whose nodes are `0..n` and whose edges run importer -> dependency.
use vstd::prelude::*;
use petgraph::algo::kosaraju_scc;
use petgraph::graph::{DiGraph, NodeIndex};

verus! {

/// A path of at most `k` edges leads from `u` to `v`.
pub open spec fn walk(g: Seq<(usize, usize)>, u: usize, v: usize, k: nat) -> bool
    decreases k,
{
    u == v || (k > 0 && exists|j: int|
        0 <= j < g.len() && #[trigger] g[j].0 == u && walk(g, g[j].1, v, (k - 1) as nat))
}

/// Some path leads from `u` to `v` (every node reaches itself).
pub open spec fn reaches(g: Seq<(usize, usize)>, u: usize, v: usize) -> bool {
    exists|k: nat| #[trigger] walk(g, u, v, k)
}

/// `u` and `v` reach each other: they lie in one strongly connected component.
pub open spec fn mutual(g: Seq<(usize, usize)>, u: usize, v: usize) -> bool {
    reaches(g, u, v) && reaches(g, v, u)
}

/// Every edge joins nodes below `n`.
pub open spec fn edges_within(g: Seq<(usize, usize)>, n: nat) -> bool {
    forall|j: int| 0 <= j < g.len() ==> (#[trigger] g[j]).0 < n && g[j].1 < n
}

/// Node `x` belongs to one of the groups.
pub open spec fn covered(groups: Seq<Seq<usize>>, x: usize) -> bool {
    exists|p: int| 0 <= p < groups.len() && #[trigger] groups[p].contains(x)
}

/// `groups` are the strongly connected components of the graph, each listed
/// after every component it has an edge into.
pub open spec fn is_scc_order(n: nat, g: Seq<(usize, usize)>, groups: Seq<Seq<usize>>) -> bool {
    &&& forall|p: int| 0 <= p < groups.len() ==> (#[trigger] groups[p]).len() > 0
    &&& forall|p: int, x: usize| 0 <= p < groups.len() && #[trigger] groups[p].contains(x) ==> x < n
    &&& forall|x: usize| x < n ==> #[trigger] covered(groups, x)
    &&& forall|p: int, q: int, x: usize|
        0 <= p < groups.len() && 0 <= q < groups.len() && #[trigger] groups[p].contains(x)
            && #[trigger] groups[q].contains(x) ==> p == q
    &&& forall|p: int, x: usize, y: usize|
        0 <= p < groups.len() && #[trigger] groups[p].contains(x) && #[trigger] groups[p].contains(y)
            ==> mutual(g, x, y)
    &&& forall|p: int, q: int, x: usize, y: usize|
        0 <= p < groups.len() && 0 <= q < groups.len() && p != q && #[trigger] groups[p].contains(x)
            && #[trigger] groups[q].contains(y) ==> !mutual(g, x, y)
    &&& forall|j: int, p: int, q: int|
        0 <= j < g.len() && 0 <= p < groups.len() && 0 <= q < groups.len()
            && #[trigger] groups[p].contains(g[j].0) && #[trigger] groups[q].contains(g[j].1) ==> q <= p
}

/// The strongly connected components of the graph on `0..count` with the given
/// edges, computed by `petgraph::algo::kosaraju_scc`. Its documentation
/// promises that each element is a strongly connected component and that the
/// components come in postorder, a reverse topological order: a component
/// comes after every component it has an edge into. The order of nodes inside
/// a component is left open, and so is it here.
#[verifier::external_body]
fn strongly_connected(count: usize, edges: &Vec<(usize, usize)>) -> (r: Vec<Vec<usize>>)
    requires
        count < 0xffff_ffff,
        edges.len() < 0xffff_ffff,
        edges_within(edges@, count as nat),
    ensures
        is_scc_order(count as nat, edges@, r@.map_values(|c: Vec<usize>| c@)),
{
    let mut graph = DiGraph::<(), ()>::with_capacity(count, edges.len());
    for _ in 0..count {
        graph.add_node(());
    }
    for &(a, b) in edges.iter() {
        graph.add_edge(NodeIndex::new(a), NodeIndex::new(b), ());
    }
    kosaraju_scc(&graph).into_iter().map(|c| c.into_iter().map(|x| x.index()).collect()).collect()
}

pub proof fn lemma_walk_monotone(g: Seq<(usize, usize)>, u: usize, v: usize, k: nat, m: nat)
    requires
        walk(g, u, v, k),
        k <= m,
    ensures
        walk(g, u, v, m),
    decreases k,
{
    if u != v {
        let j = choose|j: int|
            0 <= j < g.len() && #[trigger] g[j].0 == u && walk(g, g[j].1, v, (k - 1) as nat);
        lemma_walk_monotone(g, g[j].1, v, (k - 1) as nat, (m - 1) as nat);
    }
}

pub proof fn lemma_walk_concat(g: Seq<(usize, usize)>, u: usize, v: usize, w: usize, k: nat, m: nat)
    requires
        walk(g, u, v, k),
        walk(g, v, w, m),
    ensures
        walk(g, u, w, k + m),
    decreases k,
{
    if u == v {
        lemma_walk_monotone(g, v, w, m, k + m);
    } else {
        let j = choose|j: int|
            0 <= j < g.len() && #[trigger] g[j].0 == u && walk(g, g[j].1, v, (k - 1) as nat);
        lemma_walk_concat(g, g[j].1, v, w, (k - 1) as nat, m);
        assert(walk(g, g[j].1, w, (k - 1 + m) as nat));
    }
}

pub proof fn lemma_reaches_trans(g: Seq<(usize, usize)>, u: usize, v: usize, w: usize)
    requires
        reaches(g, u, v),
        reaches(g, v, w),
    ensures
        reaches(g, u, w),
{
    let k = choose|k: nat| #[trigger] walk(g, u, v, k);
    let m = choose|m: nat| #[trigger] walk(g, v, w, m);
    lemma_walk_concat(g, u, v, w, k, m);
}

pub proof fn lemma_reaches_refl(g: Seq<(usize, usize)>, u: usize)
    ensures
        reaches(g, u, u),
{
    assert(walk(g, u, u, 0));
}

pub proof fn lemma_reaches_edge(g: Seq<(usize, usize)>, j: int)
    requires
        0 <= j < g.len(),
    ensures
        reaches(g, g[j].0, g[j].1),
{
    assert(walk(g, g[j].1, g[j].1, 0));
    assert(walk(g, g[j].0, g[j].1, 1));
}

/// A path between distinct nodes starts with an edge.
pub proof fn lemma_reaches_first(g: Seq<(usize, usize)>, u: usize, v: usize)
    requires
        reaches(g, u, v),
        u != v,
    ensures
        exists|j: int| 0 <= j < g.len() && #[trigger] g[j].0 == u && reaches(g, g[j].1, v),
{
    let k = choose|k: nat| #[trigger] walk(g, u, v, k);
    let j = choose|j: int|
        0 <= j < g.len() && #[trigger] g[j].0 == u && walk(g, g[j].1, v, (k - 1) as nat);
    assert(reaches(g, g[j].1, v));
}

/// Some edge runs from `a` to `b`.
pub open spec fn has_edge(g: Seq<(usize, usize)>, a: usize, b: usize) -> bool {
    exists|j: int| 0 <= j < g.len() && #[trigger] g[j] == (a, b)
}

/// `adj[a]` lists the heads of exactly the edges leaving `a`.
pub open spec fn adjacency(adj: Seq<Seq<usize>>, g: Seq<(usize, usize)>, n: nat) -> bool {
    &&& adj.len() == n
    &&& forall|a: int, b: usize| 0 <= a < n && #[trigger] adj[a].contains(b) ==> has_edge(g, a as usize, b)
    &&& forall|j: int| 0 <= j < g.len() ==> adj[(#[trigger] g[j]).0 as int].contains(g[j].1)
}

/// The lists of edge heads per node, in edge order.
pub fn forward_lists(n: usize, edges: &Vec<(usize, usize)>) -> (r: Vec<Vec<usize>>)
    requires
        edges_within(edges@, n as nat),
    ensures
        adjacency(r@.map_values(|v: Vec<usize>| v@), edges@, n as nat),
{
    let mut r: Vec<Vec<usize>> = Vec::new();
    let mut i: usize = 0;
    while i < n
        invariant
            i <= n,
            r.len() == i,
            forall|a: int| 0 <= a < i ==> (#[trigger] r@[a])@.len() == 0,
        decreases n - i,
    {
        r.push(Vec::new());
        i += 1;
    }
    let mut j: usize = 0;
    while j < edges.len()
        invariant
            j <= edges.len(),
            r.len() == n,
            edges_within(edges@, n as nat),
            forall|a: int, b: usize|
                0 <= a < n && #[trigger] r@[a]@.contains(b) ==> has_edge(edges@, a as usize, b),
            forall|e: int| 0 <= e < j ==> r@[(#[trigger] edges@[e]).0 as int]@.contains(edges@[e].1),
        decreases edges.len() - j,
    {
        let (a, b) = edges[j];
        assert(edges@[j as int].0 < n);
        let ghost old_r = r@;
        r[a].push(b);
        proof {
            assert(r@[a as int]@ == old_r[a as int]@.push(b));
            assert forall|x: int| 0 <= x < n && x != a implies r@[x] == old_r[x] by {}
            assert forall|x: int, y: usize|
                0 <= x < n && #[trigger] r@[x]@.contains(y) implies has_edge(edges@, x as usize, y) by {
                if x == a {
                    if y == b {
                        assert(edges@[j as int] == (a, b));
                    } else {
                        let k = choose|k: int| 0 <= k < r@[x]@.len() && r@[x]@[k] == y;
                        assert(old_r[x]@[k] == y);
                        assert(old_r[x]@.contains(y));
                    }
                } else {
                    assert(old_r[x]@.contains(y));
                }
            }
            assert forall|e: int| 0 <= e < j + 1 implies r@[(#[trigger] edges@[e]).0 as int]@.contains(
                edges@[e].1,
            ) by {
                if e < j {
                    let x = edges@[e].0 as int;
                    assert(old_r[x]@.contains(edges@[e].1));
                    let k = choose|k: int| 0 <= k < old_r[x]@.len() && old_r[x]@[k] == edges@[e].1;
                    assert(r@[x]@[k] == edges@[e].1);
                } else {
                    assert(r@[a as int]@[r@[a as int]@.len() - 1] == b);
                }
            }
        }
        j += 1;
    }
    proof {
        let m = r@.map_values(|v: Vec<usize>| v@);
        assert forall|a: int| 0 <= a < n implies m[a] == r@[a]@ by {}
    }
    r
}

/// `comp[x]` is the position of the group that holds `x`.
pub open spec fn component_of(n: nat, groups: Seq<Seq<usize>>, comp: Seq<usize>) -> bool {
    &&& comp.len() == n
    &&& forall|x: int| 0 <= x < n ==> #[trigger] comp[x] < groups.len() && groups[comp[x] as int].contains(x as usize)
}

/// The position of each node's group.
fn component_index(n: usize, groups: &Vec<Vec<usize>>, Ghost(g): Ghost<Seq<(usize, usize)>>) -> (r: Vec<usize>)
    requires
        is_scc_order(n as nat, g, groups@.map_values(|c: Vec<usize>| c@)),
    ensures
        component_of(n as nat, groups@.map_values(|c: Vec<usize>| c@), r@),
{
    let ghost gs = groups@.map_values(|c: Vec<usize>| c@);
    let mut r: Vec<usize> = Vec::new();
    let mut i: usize = 0;
    while i < n
        invariant
            i <= n,
            r.len() == i,
        decreases n - i,
    {
        r.push(0);
        i += 1;
    }
    let mut p: usize = 0;
    while p < groups.len()
        invariant
            p <= groups.len(),
            r.len() == n,
            gs == groups@.map_values(|c: Vec<usize>| c@),
            is_scc_order(n as nat, g, gs),
            forall|x: int, q: int| 0 <= x < n && 0 <= q < p && #[trigger] gs[q].contains(x as usize) ==> r@[x] == q,
        decreases groups.len() - p,
    {
        let members = &groups[p];
        assert(gs[p as int] == members@);
        let mut k: usize = 0;
        while k < members.len()
            invariant
                p < groups.len(),
                k <= members.len(),
                r.len() == n,
                gs == groups@.map_values(|c: Vec<usize>| c@),
                gs[p as int] == members@,
                is_scc_order(n as nat, g, gs),
                forall|x: int, q: int| 0 <= x < n && 0 <= q < p && #[trigger] gs[q].contains(x as usize) ==> r@[x] == q,
                forall|kk: int| 0 <= kk < k ==> r@[members@[kk] as int] == p,
            decreases members.len() - k,
        {
            let x = members[k];
            assert(gs[p as int].contains(x));
            let ghost before = r@;
            proof {
                assert forall|kk: int| 0 <= kk < k implies members@[kk] < n by {
                    assert(gs[p as int].contains(members@[kk]));
                }
            }
            r.set(x, p);
            proof {
                assert forall|kk: int| 0 <= kk < k + 1 implies r@[members@[kk] as int] == p by {
                    assert(gs[p as int].contains(members@[kk]));
                    if members@[kk] != x {
                        assert(r@[members@[kk] as int] == before[members@[kk] as int]);
                    }
                }
                assert forall|y: int, q: int| 0 <= y < n && 0 <= q < p && #[trigger] gs[q].contains(y as usize) implies r@[y] == q by {
                    if y == x {
                        assert(gs[p as int].contains(x));
                    }
                }
            }
            k += 1;
        }
        proof {
            assert forall|x: int, q: int| 0 <= x < n && 0 <= q < p + 1 && #[trigger] gs[q].contains(x as usize) implies r@[x] == q by {
                if q == p {
                    let kk = choose|kk: int| 0 <= kk < members@.len() && members@[kk] == x as usize;
                    assert(r@[members@[kk] as int] == p);
                }
            }
        }
        p += 1;
    }
    proof {
        assert forall|x: int| 0 <= x < n implies #[trigger] r@[x] < gs.len() && gs[r@[x] as int].contains(x as usize) by {
            assert(covered(gs, x as usize));
            let q = choose|q: int| 0 <= q < gs.len() && #[trigger] gs[q].contains(x as usize);
        }
    }
    r
}

/// From `u` a path can cross at least `d` edges that leave a strongly connected
/// component, one after another.
pub open spec fn deep(g: Seq<(usize, usize)>, u: usize, d: nat) -> bool
    decreases d,
{
    d == 0 || exists|j: int|
        0 <= j < g.len() && reaches(g, u, (#[trigger] g[j]).0) && !reaches(g, g[j].1, g[j].0) && deep(
            g,
            g[j].1,
            (d - 1) as nat,
        )
}

/// The dependency depth of `u` is `d`: the largest number of component-leaving
/// edges on a path from `u`.
pub open spec fn depth_is(g: Seq<(usize, usize)>, u: usize, d: nat) -> bool {
    deep(g, u, d) && !deep(g, u, d + 1)
}

/// Along every edge the depth of the component does not grow, and it drops by
/// at least one when the edge leaves its component.
pub open spec fn depth_descends(g: Seq<(usize, usize)>, comp: Seq<usize>, d: Seq<usize>) -> bool {
    forall|j: int|
        0 <= j < g.len() ==> {
            &&& d[comp[(#[trigger] g[j]).1 as int] as int] <= d[comp[g[j].0 as int] as int]
            &&& comp[g[j].1 as int] != comp[g[j].0 as int] ==> d[comp[g[j].1 as int] as int] + 1 <= d[comp[g[j].0 as int] as int]
        }
}

/// Every component of positive depth has an edge leaving it into a component one level lower.
pub open spec fn depth_witnessed(g: Seq<(usize, usize)>, comp: Seq<usize>, d: Seq<usize>) -> bool {
    forall|q: int|
        0 <= q < d.len() && #[trigger] d[q] > 0 ==> exists|j: int|
            0 <= j < g.len() && comp[(#[trigger] g[j]).0 as int] == q && comp[g[j].1 as int] != q
                && d[comp[g[j].1 as int] as int] + 1 == d[q]
}

proof fn lemma_depth_along(
    g: Seq<(usize, usize)>,
    n: nat,
    comp: Seq<usize>,
    d: Seq<usize>,
    u: usize,
    v: usize,
    k: nat,
)
    requires
        edges_within(g, n),
        comp.len() == n,
        forall|x: int| 0 <= x < n ==> #[trigger] comp[x] < d.len(),
        depth_descends(g, comp, d),
        u < n,
        walk(g, u, v, k),
    ensures
        d[comp[v as int] as int] <= d[comp[u as int] as int],
    decreases k,
{
    if u != v {
        let j = choose|j: int|
            0 <= j < g.len() && #[trigger] g[j].0 == u && walk(g, g[j].1, v, (k - 1) as nat);
        lemma_depth_along(g, n, comp, d, g[j].1, v, (k - 1) as nat);
    }
}

proof fn lemma_deep_bounded(
    g: Seq<(usize, usize)>,
    n: nat,
    groups: Seq<Seq<usize>>,
    comp: Seq<usize>,
    d: Seq<usize>,
    u: usize,
    dd: nat,
)
    requires
        edges_within(g, n),
        is_scc_order(n, g, groups),
        component_of(n, groups, comp),
        d.len() == groups.len(),
        depth_descends(g, comp, d),
        u < n,
        deep(g, u, dd),
    ensures
        dd <= d[comp[u as int] as int],
    decreases dd,
{
    if dd > 0 {
        let j = choose|j: int|
            0 <= j < g.len() && reaches(g, u, (#[trigger] g[j]).0) && !reaches(g, g[j].1, g[j].0)
                && deep(g, g[j].1, (dd - 1) as nat);
        let a = g[j].0;
        let b = g[j].1;
        let k = choose|k: nat| #[trigger] walk(g, u, a, k);
        lemma_depth_along(g, n, comp, d, u, a, k);
        if comp[a as int] == comp[b as int] {
            assert(groups[comp[a as int] as int].contains(a));
            assert(groups[comp[a as int] as int].contains(b));
            assert(mutual(g, a, b));
        }
        lemma_deep_bounded(g, n, groups, comp, d, b, (dd - 1) as nat);
    }
}

proof fn lemma_deep_reached(
    g: Seq<(usize, usize)>,
    n: nat,
    groups: Seq<Seq<usize>>,
    comp: Seq<usize>,
    d: Seq<usize>,
    u: usize,
)
    requires
        edges_within(g, n),
        is_scc_order(n, g, groups),
        component_of(n, groups, comp),
        d.len() == groups.len(),
        depth_witnessed(g, comp, d),
        u < n,
    ensures
        deep(g, u, d[comp[u as int] as int] as nat),
    decreases d[comp[u as int] as int],
{
    let q = comp[u as int] as int;
    if d[q] > 0 {
        let j = choose|j: int|
            0 <= j < g.len() && comp[(#[trigger] g[j]).0 as int] == q && comp[g[j].1 as int] != q
                && d[comp[g[j].1 as int] as int] + 1 == d[q];
        let a = g[j].0;
        let b = g[j].1;
        assert(groups[q].contains(u));
        assert(groups[q].contains(a));
        assert(mutual(g, u, a));
        assert(groups[comp[b as int] as int].contains(b));
        assert(!mutual(g, a, b));
        lemma_reaches_edge(g, j);
        lemma_deep_reached(g, n, groups, comp, d, b);
        assert(reaches(g, u, g[j].0) && !reaches(g, g[j].1, g[j].0) && deep(g, g[j].1, (d[q] - 1) as nat));
    }
}

/// The dependency depth of every component, from the components it depends on.
fn component_depths(
    n: usize,
    groups: &Vec<Vec<usize>>,
    comp: &Vec<usize>,
    fwd: &Vec<Vec<usize>>,
    Ghost(g): Ghost<Seq<(usize, usize)>>,
) -> (d: Vec<usize>)
    requires
        edges_within(g, n as nat),
        is_scc_order(n as nat, g, groups@.map_values(|c: Vec<usize>| c@)),
        component_of(n as nat, groups@.map_values(|c: Vec<usize>| c@), comp@),
        adjacency(fwd@.map_values(|v: Vec<usize>| v@), g, n as nat),
    ensures
        d.len() == groups.len(),
        forall|x: int| 0 <= x < n ==> depth_is(g, x as usize, #[trigger] d@[comp@[x] as int] as nat),
{
    let ghost gs = groups@.map_values(|c: Vec<usize>| c@);
    let ghost adj = fwd@.map_values(|v: Vec<usize>| v@);
    let mut d: Vec<usize> = Vec::new();
    let mut p: usize = 0;
    while p < groups.len()
        invariant
            p <= groups.len(),
            d.len() == p,
            gs == groups@.map_values(|c: Vec<usize>| c@),
            adj == fwd@.map_values(|v: Vec<usize>| v@),
            edges_within(g, n as nat),
            is_scc_order(n as nat, g, gs),
            component_of(n as nat, gs, comp@),
            adjacency(adj, g, n as nat),
            forall|q: int| 0 <= q < p ==> #[trigger] d@[q] <= q,
            forall|j: int|
                0 <= j < g.len() && comp@[(#[trigger] g[j]).0 as int] < p ==> {
                    &&& comp@[g[j].1 as int] <= comp@[g[j].0 as int]
                    &&& d@[comp@[g[j].1 as int] as int] <= d@[comp@[g[j].0 as int] as int]
                    &&& comp@[g[j].1 as int] != comp@[g[j].0 as int] ==> d@[comp@[g[j].1 as int] as int] + 1
                        <= d@[comp@[g[j].0 as int] as int]
                },
            forall|q: int|
                0 <= q < p && #[trigger] d@[q] > 0 ==> exists|j: int|
                    0 <= j < g.len() && comp@[(#[trigger] g[j]).0 as int] == q && comp@[g[j].1 as int] != q
                        && d@[comp@[g[j].1 as int] as int] + 1 == d@[q],
        decreases groups.len() - p,
    {
        let members = &groups[p];
        assert(gs[p as int] == members@);
        let mut cur: usize = 0;
        let mut k: usize = 0;
        while k < members.len()
            invariant
                p < groups.len(),
                k <= members.len(),
                d.len() == p,
                gs == groups@.map_values(|c: Vec<usize>| c@),
                gs[p as int] == members@,
                adj == fwd@.map_values(|v: Vec<usize>| v@),
                edges_within(g, n as nat),
                is_scc_order(n as nat, g, gs),
                component_of(n as nat, gs, comp@),
                adjacency(adj, g, n as nat),
                forall|q: int| 0 <= q < p ==> #[trigger] d@[q] <= q,
                cur <= p,
                forall|kk: int, b: usize|
                    0 <= kk < k && #[trigger] adj[members@[kk] as int].contains(b) && comp@[b as int] != p
                        ==> comp@[b as int] < p && d@[comp@[b as int] as int] + 1 <= cur,
                cur > 0 ==> exists|j: int|
                    0 <= j < g.len() && comp@[(#[trigger] g[j]).0 as int] == p && comp@[g[j].1 as int] != p
                        && d@[comp@[g[j].1 as int] as int] + 1 == cur,
            decreases members.len() - k,
        {
            let a = members[k];
            assert(gs[p as int].contains(a));
            let heads = &fwd[a];
            assert(adj[a as int] == heads@);
            let mut i: usize = 0;
            while i < heads.len()
                invariant
                    p < groups.len(),
                    k < members.len(),
                    a == members@[k as int],
                    a < n,
                    i <= heads.len(),
                    d.len() == p,
                    gs == groups@.map_values(|c: Vec<usize>| c@),
                    gs[p as int] == members@,
                    gs[p as int].contains(a),
                    adj == fwd@.map_values(|v: Vec<usize>| v@),
                    adj[a as int] == heads@,
                    edges_within(g, n as nat),
                    is_scc_order(n as nat, g, gs),
                    component_of(n as nat, gs, comp@),
                    adjacency(adj, g, n as nat),
                    forall|q: int| 0 <= q < p ==> #[trigger] d@[q] <= q,
                    cur <= p,
                    forall|kk: int, b: usize|
                        0 <= kk < k && #[trigger] adj[members@[kk] as int].contains(b) && comp@[b as int] != p
                            ==> comp@[b as int] < p && d@[comp@[b as int] as int] + 1 <= cur,
                    forall|ii: int|
                        0 <= ii < i && comp@[heads@[ii] as int] != p ==> comp@[heads@[ii] as int] < p
                            && d@[comp@[#[trigger] heads@[ii] as int] as int] + 1 <= cur,
                    cur > 0 ==> exists|j: int|
                        0 <= j < g.len() && comp@[(#[trigger] g[j]).0 as int] == p && comp@[g[j].1 as int]
                            != p && d@[comp@[g[j].1 as int] as int] + 1 == cur,
                decreases heads.len() - i,
            {
                let b = heads[i];
                proof {
                    assert(adj[a as int].contains(b));
                    assert(has_edge(g, a, b));
                    let j = choose|j: int| 0 <= j < g.len() && #[trigger] g[j] == (a, b);
                    assert(gs[comp@[b as int] as int].contains(b));
                    assert(gs[comp@[a as int] as int].contains(a));
                    assert(comp@[a as int] == p);
                    assert(comp@[b as int] <= p);
                }
                let q = comp[b];
                if q != p {
                    let candidate = d[q] + 1;
                    if candidate > cur {
                        proof {
                            let j = choose|j: int| 0 <= j < g.len() && #[trigger] g[j] == (a, b);
                            assert(comp@[g[j].0 as int] == p);
                        }
                        cur = candidate;
                    }
                }
                i += 1;
            }
            proof {
                assert forall|kk: int, b: usize|
                    0 <= kk < k + 1 && #[trigger] adj[members@[kk] as int].contains(b) && comp@[b as int] != p
                        implies comp@[b as int] < p && d@[comp@[b as int] as int] + 1 <= cur by {
                    if kk == k {
                        let ii = choose|ii: int| 0 <= ii < heads@.len() && heads@[ii] == b;
                        assert(comp@[heads@[ii] as int] != p);
                    }
                }
            }
            k += 1;
        }
        d.push(cur);
        proof {
            assert forall|j: int|
                0 <= j < g.len() && comp@[(#[trigger] g[j]).0 as int] < p + 1 implies {
                    &&& comp@[g[j].1 as int] <= comp@[g[j].0 as int]
                    &&& d@[comp@[g[j].1 as int] as int] <= d@[comp@[g[j].0 as int] as int]
                    &&& comp@[g[j].1 as int] != comp@[g[j].0 as int] ==> d@[comp@[g[j].1 as int] as int] + 1
                        <= d@[comp@[g[j].0 as int] as int]
                } by {
                let a = g[j].0;
                let b = g[j].1;
                assert(gs[comp@[b as int] as int].contains(b));
                assert(gs[comp@[a as int] as int].contains(a));
                if comp@[a as int] == p {
                    assert(adj[a as int].contains(b));
                    let kk = choose|kk: int| 0 <= kk < members@.len() && members@[kk] == a;
                    assert(adj[members@[kk] as int].contains(b));
                }
            }
        }
        p += 1;
    }
    proof {
        let cs = comp@;
        assert(depth_descends(g, cs, d@));
        assert(depth_witnessed(g, cs, d@));
        assert forall|x: int| 0 <= x < n implies depth_is(g, x as usize, #[trigger] d@[comp@[x] as int] as nat) by {
            lemma_deep_reached(g, n as nat, gs, cs, d@, x as usize);
            if deep(g, x as usize, (d@[comp@[x] as int] + 1) as nat) {
                lemma_deep_bounded(g, n as nat, gs, cs, d@, x as usize, (d@[comp@[x] as int] + 1) as nat);
            }
        }
    }
    d
}

/// The nodes below `n` from which some path leads to `u`, `u` included.
pub open spec fn reaching(g: Seq<(usize, usize)>, n: nat, u: usize) -> Set<int> {
    Set::new(|x: int| 0 <= x < n && reaches(g, x as usize, u))
}

/// The edges turned around.
pub open spec fn reversed(g: Seq<(usize, usize)>) -> Seq<(usize, usize)> {
    g.map_values(|e: (usize, usize)| (e.1, e.0))
}

/// The marked nodes, as a set.
pub open spec fn marked(v: Seq<bool>) -> Set<int> {
    Set::new(|x: int| 0 <= x < v.len() && v[x])
}

proof fn lemma_marked_bounded(v: Seq<bool>)
    ensures
        marked(v).finite(),
        marked(v).len() <= v.len(),
{
    vstd::set_lib::lemma_int_range(0, v.len() as int);
    vstd::set_lib::lemma_len_subset(marked(v), vstd::set_lib::set_int_range(0, v.len() as int));
}

/// A set holding `u` and closed under predecessors holds every node that reaches `u`.
proof fn lemma_closed_holds_reaching(g: Seq<(usize, usize)>, n: nat, s: Set<int>, u: usize, v: usize, k: nat)
    requires
        edges_within(g, n),
        s.contains(u as int),
        forall|j: int| 0 <= j < g.len() && s.contains((#[trigger] g[j]).1 as int) ==> s.contains(g[j].0 as int),
        walk(g, v, u, k),
    ensures
        s.contains(v as int),
    decreases k,
{
    if v != u {
        let j = choose|j: int| 0 <= j < g.len() && #[trigger] g[j].0 == v && walk(g, g[j].1, u, (k - 1) as nat);
        lemma_closed_holds_reaching(g, n, s, u, g[j].1, (k - 1) as nat);
    }
}

/// The number of nodes from which a path leads to `u`, `u` included.
fn count_reaching(n: usize, rev: &Vec<Vec<usize>>, u: usize, Ghost(g): Ghost<Seq<(usize, usize)>>) -> (r: usize)
    requires
        u < n,
        edges_within(g, n as nat),
        adjacency(rev@.map_values(|v: Vec<usize>| v@), reversed(g), n as nat),
    ensures
        r == reaching(g, n as nat, u).len(),
{
    let ghost adj = rev@.map_values(|v: Vec<usize>| v@);
    let mut seen: Vec<bool> = Vec::new();
    let mut i: usize = 0;
    while i < n
        invariant
            i <= n,
            seen.len() == i,
            forall|x: int| 0 <= x < i ==> !(#[trigger] seen@[x]),
        decreases n - i,
    {
        seen.push(false);
        i += 1;
    }
    proof {
        lemma_reaches_refl(g, u);
        assert(marked(seen@) =~= Set::<int>::empty());
    }
    seen.set(u, true);
    proof {
        assert(marked(seen@) =~= Set::<int>::empty().insert(u as int));
    }
    let mut count: usize = 1;
    let mut stack: Vec<usize> = vec![u];
    while stack.len() > 0
        invariant
            u < n,
            seen.len() == n,
            adj == rev@.map_values(|v: Vec<usize>| v@),
            edges_within(g, n as nat),
            adjacency(adj, reversed(g), n as nat),
            seen@[u as int],
            count == marked(seen@).len(),
            stack@.no_duplicates(),
            forall|k: int| 0 <= k < stack.len() ==> #[trigger] stack@[k] < n && seen@[stack@[k] as int],
            forall|x: int| 0 <= x < n && #[trigger] seen@[x] ==> reaches(g, x as usize, u),
            count <= n,
            forall|x: usize, y: usize|
                x < n && seen@[x as int] && !stack@.contains(x) && #[trigger] adj[x as int].contains(y)
                    ==> seen@[y as int],
        decreases n - count, stack.len(),
    {
        proof {
            lemma_marked_bounded(seen@);
        }
        let ghost s0 = stack@;
        let x = stack.pop().unwrap();
        proof {
            assert(s0 == stack@.push(x));
            assert(!stack@.contains(x)) by {
                if stack@.contains(x) {
                    let k = choose|k: int| 0 <= k < stack@.len() && stack@[k] == x;
                    assert(s0[k] == s0[s0.len() - 1]);
                }
            }
            assert forall|z: usize| #[trigger] stack@.contains(z) implies s0.contains(z) by {
                let k = choose|k: int| 0 <= k < stack@.len() && stack@[k] == z;
                assert(s0[k] == z);
            }
        }
        let heads = &rev[x];
        assert(adj[x as int] == heads@);
        proof {
            assert forall|ii: int| 0 <= ii < heads@.len() implies #[trigger] heads@[ii] < n by {
                assert(adj[x as int].contains(heads@[ii]));
                assert(has_edge(reversed(g), x, heads@[ii]));
                let j = choose|j: int| 0 <= j < reversed(g).len() && #[trigger] reversed(g)[j] == (x, heads@[ii]);
                assert(g[j] == (heads@[ii], x));
            }
        }
        let ghost count0 = count;
        let ghost len0 = stack.len();
        let mut i: usize = 0;
        while i < heads.len()
            invariant
                u < n,
                x < n,
                seen@[x as int],
                seen.len() == n,
                adj == rev@.map_values(|v: Vec<usize>| v@),
                adj[x as int] == heads@,
                edges_within(g, n as nat),
                adjacency(adj, reversed(g), n as nat),
                seen@[u as int],
                count == marked(seen@).len(),
                count >= count0,
                count <= n,
                stack.len() == len0 + (count - count0),
                forall|ii: int| 0 <= ii < heads@.len() ==> #[trigger] heads@[ii] < n,
                i <= heads.len(),
                stack@.no_duplicates(),
                !stack@.contains(x),
                forall|k: int| 0 <= k < stack.len() ==> #[trigger] stack@[k] < n && seen@[stack@[k] as int],
                forall|z: int| 0 <= z < n && #[trigger] seen@[z] ==> reaches(g, z as usize, u),
                forall|z: usize, y: usize|
                    z < n && z != x && seen@[z as int] && !stack@.contains(z) && #[trigger] adj[z as int].contains(y)
                        ==> seen@[y as int],
                forall|ii: int| 0 <= ii < i ==> seen@[#[trigger] heads@[ii] as int],
            decreases heads.len() - i,
        {
            let y = heads[i];
            proof {
                assert(adj[x as int].contains(y));
                assert(has_edge(reversed(g), x, y));
                let j = choose|j: int| 0 <= j < reversed(g).len() && #[trigger] reversed(g)[j] == (x, y);
                assert(g[j] == (y, x));
                lemma_reaches_edge(g, j);
                lemma_reaches_trans(g, y, x, u);
            }
            if !seen[y] {
                proof {
                    lemma_marked_bounded(seen@);
                }
                let ghost before = seen@;
                let ghost st = stack@;
                seen.set(y, true);
                proof {
                    assert(marked(seen@) =~= marked(before).insert(y as int));
                    lemma_marked_bounded(seen@);
                    assert(!st.contains(y)) by {
                        if st.contains(y) {
                            let k = choose|k: int| 0 <= k < st.len() && st[k] == y;
                            assert(before[st[k] as int]);
                        }
                    }
                }
                count = count + 1;
                stack.push(y);
                proof {
                    assert(stack@ == st.push(y));
                    assert forall|z: int| 0 <= z < n && #[trigger] before[z] implies seen@[z] by {}
                    assert forall|z: usize| #[trigger] st.contains(z) implies stack@.contains(z) by {
                        let k = choose|k: int| 0 <= k < st.len() && st[k] == z;
                        assert(stack@[k] == z);
                    }
                    assert(!stack@.contains(x)) by {
                        if stack@.contains(x) {
                            let k = choose|k: int| 0 <= k < stack@.len() && stack@[k] == x;
                            if k < st.len() {
                                assert(st[k] == x);
                            }
                        }
                    }
                    assert forall|z: usize, w: usize|
                        z < n && z != x && seen@[z as int] && !stack@.contains(z) && #[trigger] adj[z as int].contains(w)
                            implies seen@[w as int] by {
                        if z == y {
                            assert(stack@[stack@.len() - 1] == y);
                        } else {
                            assert(before[z as int]);
                            assert(!st.contains(z));
                            assert(before[w as int]);
                        }
                    }
                }
            }
            i += 1;
        }
        proof {
            assert forall|z: usize, y: usize|
                z < n && seen@[z as int] && !stack@.contains(z) && #[trigger] adj[z as int].contains(y)
                    implies seen@[y as int] by {
                if z == x {
                    let ii = choose|ii: int| 0 <= ii < heads@.len() && heads@[ii] == y;
                    assert(seen@[heads@[ii] as int]);
                }
            }
        }
    }
    proof {
        let s = marked(seen@);
        assert forall|j: int| 0 <= j < g.len() && s.contains((#[trigger] g[j]).1 as int) implies s.contains(g[j].0 as int) by {
            let e = g[j];
            assert(reversed(g)[j] == (e.1, e.0));
            assert(adj[e.1 as int].contains(e.0));
        }
        assert forall|x: int| #[trigger] reaching(g, n as nat, u).contains(x) <==> s.contains(x) by {
            if reaching(g, n as nat, u).contains(x) {
                let k = choose|k: nat| #[trigger] walk(g, x as usize, u, k);
                lemma_closed_holds_reaching(g, n as nat, s, u, x as usize, k);
            }
        }
        assert(reaching(g, n as nat, u) =~= s);
    }
    count
}

/// `u` lies on a cycle: some edge leads from a node `u` reaches back to `u`.
pub open spec fn on_cycle(g: Seq<(usize, usize)>, u: usize) -> bool {
    exists|j: int| 0 <= j < g.len() && reaches(g, u, (#[trigger] g[j]).0) && reaches(g, g[j].1, u)
}

/// The smallest node of `u`'s component is smaller than the smallest node of `v`'s.
pub open spec fn leader_below(g: Seq<(usize, usize)>, n: nat, u: usize, v: usize) -> bool {
    exists|x: usize| x < n && #[trigger] mutual(g, u, x) && forall|y: usize| y < n && #[trigger] mutual(g, v, y) ==> x < y
}

/// The numbers given to the nodes on cycles: the cyclic components get
/// `1..=cycles` in the order of their smallest node, every other node zero.
pub open spec fn cycle_numbering(g: Seq<(usize, usize)>, n: nat, num: Seq<usize>, cycles: nat) -> bool {
    &&& num.len() == n
    &&& forall|x: int| 0 <= x < n ==> (#[trigger] num[x] > 0 <==> on_cycle(g, x as usize))
    &&& forall|x: int| 0 <= x < n ==> #[trigger] num[x] <= cycles
    &&& forall|x: int, y: int|
        0 <= x < n && 0 <= y < n && on_cycle(g, x as usize) && on_cycle(g, y as usize) ==> (#[trigger] num[x]
            == #[trigger] num[y] <==> mutual(g, x as usize, y as usize))
    &&& forall|x: int, y: int|
        0 <= x < n && 0 <= y < n && on_cycle(g, x as usize) && on_cycle(g, y as usize) && !mutual(
            g,
            x as usize,
            y as usize,
        ) ==> (#[trigger] num[x] < #[trigger] num[y] <==> leader_below(g, n, x as usize, y as usize))
    &&& forall|c: int| 1 <= c <= cycles ==> #[trigger] number_used(num, c)
}

/// Some node carries the number `c`.
pub open spec fn number_used(num: Seq<usize>, c: int) -> bool {
    exists|x: int| 0 <= x < num.len() && #[trigger] num[x] == c
}

/// The smallest member of every group.
fn group_leaders(groups: &Vec<Vec<usize>>) -> (r: Vec<usize>)
    requires
        forall|p: int| 0 <= p < groups.len() ==> (#[trigger] groups@[p])@.len() > 0,
    ensures
        r.len() == groups.len(),
        forall|p: int| 0 <= p < groups.len() ==> groups@[p]@.contains(#[trigger] r@[p]),
        forall|p: int, k: int| 0 <= p < groups.len() && 0 <= k < groups@[p]@.len() ==> r@[p] <= #[trigger] groups@[p]@[k],
{
    let mut r: Vec<usize> = Vec::new();
    let mut p: usize = 0;
    while p < groups.len()
        invariant
            p <= groups.len(),
            r.len() == p,
            forall|p: int| 0 <= p < groups.len() ==> (#[trigger] groups@[p])@.len() > 0,
            forall|q: int| 0 <= q < p ==> groups@[q]@.contains(#[trigger] r@[q]),
            forall|q: int, k: int| 0 <= q < p && 0 <= k < groups@[q]@.len() ==> r@[q] <= #[trigger] groups@[q]@[k],
        decreases groups.len() - p,
    {
        let members = &groups[p];
        let mut best = members[0];
        let mut k: usize = 1;
        while k < members.len()
            invariant
                1 <= k <= members.len(),
                members@.contains(best),
                forall|kk: int| 0 <= kk < k ==> best <= #[trigger] members@[kk],
            decreases members.len() - k,
        {
            if members[k] < best {
                best = members[k];
            }
            k += 1;
        }
        r.push(best);
        p += 1;
    }
    r
}

/// Whether each group lies on a cycle: it has two nodes, or an edge from a node to itself.
fn group_cycles(n: usize, groups: &Vec<Vec<usize>>, fwd: &Vec<Vec<usize>>, Ghost(g): Ghost<Seq<(usize, usize)>>) -> (r: Vec<bool>)
    requires
        edges_within(g, n as nat),
        is_scc_order(n as nat, g, groups@.map_values(|c: Vec<usize>| c@)),
        adjacency(fwd@.map_values(|v: Vec<usize>| v@), g, n as nat),
    ensures
        r.len() == groups.len(),
        forall|p: int, x: usize| 0 <= p < groups.len() && #[trigger] groups@[p]@.contains(x) ==> (r@[p] <==> on_cycle(g, x)),
{
    let ghost gs = groups@.map_values(|c: Vec<usize>| c@);
    let ghost adj = fwd@.map_values(|v: Vec<usize>| v@);
    let mut r: Vec<bool> = Vec::new();
    let mut p: usize = 0;
    while p < groups.len()
        invariant
            p <= groups.len(),
            r.len() == p,
            gs == groups@.map_values(|c: Vec<usize>| c@),
            adj == fwd@.map_values(|v: Vec<usize>| v@),
            edges_within(g, n as nat),
            is_scc_order(n as nat, g, gs),
            adjacency(adj, g, n as nat),
            forall|q: int, x: usize| 0 <= q < p && #[trigger] groups@[q]@.contains(x) ==> (r@[q] <==> on_cycle(g, x)),
        decreases groups.len() - p,
    {
        let members = &groups[p];
        assert(gs[p as int] == members@);
        let first = members[0];
        let mut cyclic = false;
        let ghost mut wa: usize = first;
        let ghost mut wb: usize = first;
        let mut k: usize = 0;
        while k < members.len()
            invariant
                p < groups.len(),
                k <= members.len(),
                gs == groups@.map_values(|c: Vec<usize>| c@),
                gs[p as int] == members@,
                members@.len() > 0,
                first == members@[0],
                adj == fwd@.map_values(|v: Vec<usize>| v@),
                edges_within(g, n as nat),
                is_scc_order(n as nat, g, gs),
                adjacency(adj, g, n as nat),
                cyclic ==> members@.contains(wa) && members@.contains(wb) && (wa != wb || has_edge(g, wa, wb)),
                !cyclic ==> forall|kk: int| 0 <= kk < k ==> #[trigger] members@[kk] == first && !adj[members@[kk] as int].contains(members@[kk]),
            decreases members.len() - k,
        {
            let a = members[k];
            assert(gs[p as int].contains(a));
            assert(a < n);
            if a != first {
                assert(members@.contains(first));
                assert(members@.contains(a));
                proof {
                    wa = first;
                    wb = a;
                }
                cyclic = true;
            } else {
                let heads = &fwd[a];
                assert(adj[a as int] == heads@);
                let mut i: usize = 0;
                while i < heads.len()
                    invariant
                        i <= heads.len(),
                        adj[a as int] == heads@,
                        members@.contains(a),
                        adjacency(adj, g, n as nat),
                        a < n,
                        cyclic ==> members@.contains(wa) && members@.contains(wb) && (wa != wb || has_edge(g, wa, wb)),
                        !cyclic ==> forall|ii: int| 0 <= ii < i ==> #[trigger] heads@[ii] != a,
                        !cyclic ==> forall|kk: int| 0 <= kk < k ==> #[trigger] members@[kk] == first && !adj[members@[kk] as int].contains(members@[kk]),
                        k < members.len(),
                        a == members@[k as int],
                        a == first,
                    decreases heads.len() - i,
                {
                    if heads[i] == a {

                        assert(adj[a as int].contains(a));
                        assert(has_edge(g, a, a));
                        proof {
                            wa = a;
                            wb = a;
                        }
                        cyclic = true;
                    }
                    i += 1;
                }
                proof {
                    if !cyclic {
                        assert(!adj[a as int].contains(a)) by {
                            if adj[a as int].contains(a) {
                                let ii = choose|ii: int| 0 <= ii < heads@.len() && heads@[ii] == a;
                            }
                        }
                    }
                }
            }
            k += 1;
        }
        proof {
            assert forall|x: usize| #[trigger] groups@[p as int]@.contains(x) implies (cyclic <==> on_cycle(g, x)) by {
                assert(gs[p as int].contains(x));
                if cyclic {
                    let a = wa;
                    let b = wb;
                    assert(gs[p as int].contains(a));
                    assert(gs[p as int].contains(b));
                    assert(mutual(g, x, a));
                    assert(mutual(g, b, x));
                    if a != b {
                        assert(mutual(g, a, b));
                        lemma_reaches_first(g, a, b);
                        let j = choose|j: int| 0 <= j < g.len() && #[trigger] g[j].0 == a && reaches(g, g[j].1, b);
                        lemma_reaches_trans(g, g[j].1, b, x);
                        assert(reaches(g, x, g[j].0) && reaches(g, g[j].1, x));
                    } else {
                        assert(has_edge(g, a, b));
                        let j = choose|j: int| 0 <= j < g.len() && #[trigger] g[j] == (a, b);
                        assert(reaches(g, x, g[j].0) && reaches(g, g[j].1, x));
                    }
                } else if on_cycle(g, x) {
                    let j = choose|j: int| 0 <= j < g.len() && reaches(g, x, (#[trigger] g[j]).0) && reaches(g, g[j].1, x);
                    let a = g[j].0;
                    let b = g[j].1;
                    lemma_reaches_edge(g, j);
                    lemma_reaches_trans(g, a, b, x);
                    lemma_reaches_trans(g, b, x, a);
                    assert(covered(gs, a));
                    let qa = choose|q: int| 0 <= q < gs.len() && #[trigger] gs[q].contains(a);
                    assert(covered(gs, b));
                    let qb = choose|q: int| 0 <= q < gs.len() && #[trigger] gs[q].contains(b);
                    if qa != p {
                        assert(!mutual(g, x, a));
                    }
                    if qb != p {
                        assert(!mutual(g, x, b));
                    }
                    let ka = choose|kk: int| 0 <= kk < members@.len() && members@[kk] == a;
                    let kb = choose|kk: int| 0 <= kk < members@.len() && members@[kk] == b;
                    assert(members@[ka] == first);
                    assert(members@[kb] == first);
                    assert(adj[a as int].contains(b));
                    assert(!adj[members@[ka] as int].contains(members@[ka]));
                }
            }
        }
        r.push(cyclic);
        p += 1;
    }
    r
}

/// A node in group `p` is assigned to `p`, and nodes reach each other exactly when they share a group.
proof fn lemma_component_facts(n: nat, g: Seq<(usize, usize)>, gs: Seq<Seq<usize>>, comp: Seq<usize>)
    requires
        is_scc_order(n, g, gs),
        component_of(n, gs, comp),
    ensures
        forall|p: int, x: usize| 0 <= p < gs.len() && #[trigger] gs[p].contains(x) ==> comp[x as int] == p,
        forall|x: usize, y: usize| x < n && y < n ==> (#[trigger] mutual(g, x, y) <==> comp[x as int] == comp[y as int]),
{
    assert forall|p: int, x: usize| 0 <= p < gs.len() && #[trigger] gs[p].contains(x) implies comp[x as int] == p by {
        assert(x < n);
        assert(gs[comp[x as int] as int].contains(x));
    }
    assert forall|x: usize, y: usize| x < n && y < n implies (#[trigger] mutual(g, x, y) <==> comp[x as int] == comp[y as int]) by {
        assert(gs[comp[x as int] as int].contains(x));
        assert(gs[comp[y as int] as int].contains(y));
    }
}

/// Some group carries the number `c`.
pub open spec fn some_group_numbered(ids: Seq<usize>, c: int) -> bool {
    exists|p: int| 0 <= p < ids.len() && #[trigger] ids[p] == c
}

/// Numbers the cyclic components `1..` in the order of their smallest nodes.
fn number_cycles(
    n: usize,
    comp: &Vec<usize>,
    leaders: &Vec<usize>,
    cyclic: &Vec<bool>,
    Ghost(gs): Ghost<Seq<Seq<usize>>>,
    Ghost(g): Ghost<Seq<(usize, usize)>>,
) -> (r: (Vec<usize>, usize))
    requires
        is_scc_order(n as nat, g, gs),
        component_of(n as nat, gs, comp@),
        leaders.len() == gs.len(),
        cyclic.len() == gs.len(),
        forall|p: int| 0 <= p < gs.len() ==> gs[p].contains(#[trigger] leaders@[p]),
        forall|p: int, k: int| 0 <= p < gs.len() && 0 <= k < gs[p].len() ==> leaders@[p] <= #[trigger] gs[p][k],
        forall|p: int, x: usize| 0 <= p < gs.len() && #[trigger] gs[p].contains(x) ==> (cyclic@[p] <==> on_cycle(g, x)),
    ensures
        r.1 <= n,
        cycle_numbering(g, n as nat, r.0@, r.1 as nat),
{
    proof {
        lemma_component_facts(n as nat, g, gs, comp@);
    }
    let count = leaders.len();
    let mut ids: Vec<usize> = Vec::new();
    let mut i: usize = 0;
    while i < count
        invariant
            i <= count,
            ids.len() == i,
            forall|p: int| 0 <= p < i ==> #[trigger] ids@[p] == 0,
        decreases count - i,
    {
        ids.push(0);
        i += 1;
    }
    let mut cycles: usize = 0;
    let mut w: usize = 0;
    while w < n
        invariant
            w <= n,
            cycles <= w,
            count == gs.len(),
            ids.len() == count,
            leaders.len() == count,
            cyclic.len() == count,
            is_scc_order(n as nat, g, gs),
            component_of(n as nat, gs, comp@),
            forall|p: int| 0 <= p < gs.len() ==> gs[p].contains(#[trigger] leaders@[p]),
            forall|p: int, x: usize| 0 <= p < gs.len() && #[trigger] gs[p].contains(x) ==> comp@[x as int] == p,
            forall|p: int| 0 <= p < count ==> (#[trigger] ids@[p] > 0 <==> cyclic@[p] && leaders@[p] < w),
            forall|p: int| 0 <= p < count ==> #[trigger] ids@[p] <= cycles,
            forall|p: int, q: int|
                0 <= p < count && 0 <= q < count && #[trigger] ids@[p] > 0 && #[trigger] ids@[q] > 0 ==> (ids@[p]
                    < ids@[q] <==> leaders@[p] < leaders@[q]),
            forall|c: int| 1 <= c <= cycles ==> #[trigger] some_group_numbered(ids@, c),
        decreases n - w,
    {
        let p = comp[w];
        if cyclic[p] && leaders[p] == w {
            proof {
                assert(gs[p as int].contains(leaders@[p as int]));
                assert forall|q: int| 0 <= q < count && leaders@[q] == w implies q == p by {
                    assert(gs[q].contains(leaders@[q]));
                }
            }
            let ghost before = ids@;
            cycles = cycles + 1;
            ids.set(p, cycles);
            proof {
                assert forall|c: int| 1 <= c <= cycles implies #[trigger] some_group_numbered(ids@, c) by {
                    if c < cycles {
                        assert(some_group_numbered(before, c));
                        let q = choose|q: int| 0 <= q < before.len() && #[trigger] before[q] == c;
                        assert(ids@[q] == c);
                    } else {
                        assert(ids@[p as int] == c);
                    }
                }
            }
        } else {
            proof {
                assert forall|q: int| 0 <= q < count && cyclic@[q] && leaders@[q] == w implies false by {
                    assert(gs[q].contains(leaders@[q]));
                }
            }
        }
        w += 1;
    }
    let mut num: Vec<usize> = Vec::new();
    let mut x: usize = 0;
    while x < n
        invariant
            x <= n,
            num.len() == x,
            ids.len() == count,
            component_of(n as nat, gs, comp@),
            count == gs.len(),
            forall|z: int| 0 <= z < x ==> #[trigger] num@[z] == ids@[comp@[z] as int],
        decreases n - x,
    {
        num.push(ids[comp[x]]);
        x += 1;
    }
    proof {
        let ids_s = ids@;
        let cs = comp@;
        assert forall|x: int| 0 <= x < n implies #[trigger] num@[x] == ids_s[cs[x] as int] by {}
        assert forall|x: int| 0 <= x < n implies (ids_s[#[trigger] cs[x] as int] > 0 <==> on_cycle(g, x as usize)) by {
            assert(gs[cs[x] as int].contains(x as usize));
            assert(gs[cs[x] as int].contains(leaders@[cs[x] as int]));
        }
        assert forall|x: int, y: int|
            0 <= x < n && 0 <= y < n && on_cycle(g, x as usize) && on_cycle(g, y as usize) implies (ids_s[#[trigger] cs[x] as int]
                == ids_s[#[trigger] cs[y] as int] <==> mutual(g, x as usize, y as usize)) by {
            assert(gs[cs[x] as int].contains(x as usize));
            assert(gs[cs[y] as int].contains(y as usize));
            assert(gs[cs[x] as int].contains(leaders@[cs[x] as int]));
            assert(gs[cs[y] as int].contains(leaders@[cs[y] as int]));
            assert(mutual(g, x as usize, y as usize) <==> cs[x] == cs[y]);
        }
        assert forall|x: int, y: int|
            0 <= x < n && 0 <= y < n && on_cycle(g, x as usize) && on_cycle(g, y as usize) && !mutual(
                g,
                x as usize,
                y as usize,
            ) implies (ids_s[#[trigger] cs[x] as int] < ids_s[#[trigger] cs[y] as int] <==> leader_below(
                g,
                n as nat,
                x as usize,
                y as usize,
            )) by {
            let px = cs[x] as int;
            let py = cs[y] as int;
            assert(gs[px].contains(x as usize));
            assert(gs[py].contains(y as usize));
            let lx = leaders@[px];
            let ly = leaders@[py];
            assert(gs[px].contains(lx));
            assert(gs[py].contains(ly));
            assert(mutual(g, x as usize, y as usize) <==> cs[x] == cs[y]);
            if ids_s[px] < ids_s[py] {
                assert(lx < ly);
                assert(mutual(g, x as usize, lx));
                assert forall|z: usize| z < n && #[trigger] mutual(g, y as usize, z) implies lx < z by {
                    assert(cs[z as int] == py);
                    assert(gs[py].contains(z));
                    let k = choose|k: int| 0 <= k < gs[py].len() && gs[py][k] == z;
                    assert(ly <= gs[py][k]);
                }
                assert(leader_below(g, n as nat, x as usize, y as usize));
            }
            if leader_below(g, n as nat, x as usize, y as usize) {
                let x0 = choose|x0: usize| x0 < n && #[trigger] mutual(g, x as usize, x0) && forall|z: usize| z < n && #[trigger] mutual(g, y as usize, z) ==> x0 < z;
                assert(mutual(g, y as usize, ly));
                assert(x0 < ly);
                assert(cs[x0 as int] == px);
                assert(gs[px].contains(x0));
                let k = choose|k: int| 0 <= k < gs[px].len() && gs[px][k] == x0;
                assert(lx <= gs[px][k]);
                assert(lx < ly);
                assert(ids_s[px] != ids_s[py]);
            }
        }
        assert forall|c: int| 1 <= c <= cycles implies #[trigger] number_used(num@, c) by {
            assert(some_group_numbered(ids_s, c));
            let q = choose|q: int| 0 <= q < ids_s.len() && #[trigger] ids_s[q] == c;
            let l = leaders@[q];
            assert(gs[q].contains(l));
            assert(l < n);
            assert(cs[l as int] == q);
            assert(num@[l as int] == c);
        }
        assert forall|x: int| 0 <= x < n implies (#[trigger] num@[x] > 0 <==> on_cycle(g, x as usize)) by {
            assert(num@[x] == ids_s[cs[x] as int]);
        }
        assert forall|x: int| 0 <= x < n implies #[trigger] num@[x] <= cycles by {
            assert(num@[x] == ids_s[cs[x] as int]);
        }
        assert forall|x: int, y: int|
            0 <= x < n && 0 <= y < n && on_cycle(g, x as usize) && on_cycle(g, y as usize) implies (#[trigger] num@[x]
                == #[trigger] num@[y] <==> mutual(g, x as usize, y as usize)) by {
            assert(num@[x] == ids_s[cs[x] as int]);
            assert(num@[y] == ids_s[cs[y] as int]);
        }
        assert forall|x: int, y: int|
            0 <= x < n && 0 <= y < n && on_cycle(g, x as usize) && on_cycle(g, y as usize) && !mutual(
                g,
                x as usize,
                y as usize,
            ) implies (#[trigger] num@[x] < #[trigger] num@[y] <==> leader_below(g, n as nat, x as usize, y as usize)) by {
            assert(num@[x] == ids_s[cs[x] as int]);
            assert(num@[y] == ids_s[cs[y] as int]);
        }
    }
    (num, cycles)
}

/// What the metrics need to know of a graph.
pub struct GraphShape {
    /// The dependency depth of every node.
    pub depth: Vec<usize>,
    /// The cycle number of every node, zero off cycles.
    pub cycle: Vec<usize>,
    /// How many strongly connected components lie on cycles.
    pub cycles: usize,
    /// For every node, how many nodes reach it, itself included.
    pub reached_from: Vec<usize>,
    /// The heads of the edges leaving each node.
    pub forward: Vec<Vec<usize>>,
    /// The tails of the edges entering each node.
    pub backward: Vec<Vec<usize>>,
}

/// The shape of a graph: what `shape_of` computes for the graph on `0..n`.
pub open spec fn shape_spec(n: nat, g: Seq<(usize, usize)>, r: GraphShape) -> bool {
    &&& r.depth.len() == n
    &&& forall|x: int| 0 <= x < n ==> depth_is(g, x as usize, #[trigger] r.depth@[x] as nat)
    &&& cycle_numbering(g, n, r.cycle@, r.cycles as nat)
    &&& r.reached_from.len() == n
    &&& forall|x: int| 0 <= x < n ==> #[trigger] r.reached_from@[x] == reaching(g, n, x as usize).len()
    &&& adjacency(r.forward@.map_values(|v: Vec<usize>| v@), g, n)
    &&& adjacency(r.backward@.map_values(|v: Vec<usize>| v@), reversed(g), n)
}

/// Depths, cycles and reach counts of the graph on `0..n` with the given edges.
pub fn shape_of(n: usize, edges: &Vec<(usize, usize)>) -> (r: GraphShape)
    requires
        n < 0xffff_ffff,
        edges.len() < 0xffff_ffff,
        edges_within(edges@, n as nat),
    ensures
        shape_spec(n as nat, edges@, r),
{
    let ghost g = edges@;
    let forward = forward_lists(n, edges);
    let mut swapped: Vec<(usize, usize)> = Vec::new();
    let mut j: usize = 0;
    while j < edges.len()
        invariant
            j <= edges.len(),
            swapped@ == reversed(edges@).take(j as int),
        decreases edges.len() - j,
    {
        let (a, b) = edges[j];
        swapped.push((b, a));
        j += 1;
        assert(swapped@ =~= reversed(edges@).take(j as int));
    }
    assert(swapped@ =~= reversed(edges@));
    let backward = forward_lists(n, &swapped);
    let groups = strongly_connected(n, edges);
    let comp = component_index(n, &groups, Ghost(g));
    let depth_of_group = component_depths(n, &groups, &comp, &forward, Ghost(g));
    proof {
        let gs = groups@.map_values(|c: Vec<usize>| c@);
        assert forall|p: int| 0 <= p < groups.len() implies (#[trigger] groups@[p])@.len() > 0 by {
            assert(gs[p] == groups@[p]@);
        }
    }
    let leaders = group_leaders(&groups);
    proof {
        let gs = groups@.map_values(|c: Vec<usize>| c@);
        assert forall|p: int| 0 <= p < gs.len() implies gs[p].contains(#[trigger] leaders@[p]) by {
            assert(gs[p] == groups@[p]@);
        }
        assert forall|p: int, k: int| 0 <= p < gs.len() && 0 <= k < gs[p].len() implies leaders@[p] <= #[trigger] gs[p][k] by {
            assert(gs[p] == groups@[p]@);
            assert(gs[p][k] == groups@[p]@[k]);
        }
    }
    let cyclic = group_cycles(n, &groups, &forward, Ghost(g));
    let (cycle, cycles) = number_cycles(
        n,
        &comp,
        &leaders,
        &cyclic,
        Ghost(groups@.map_values(|c: Vec<usize>| c@)),
        Ghost(g),
    );
    let mut depth: Vec<usize> = Vec::new();
    let mut reached_from: Vec<usize> = Vec::new();
    let mut x: usize = 0;
    while x < n
        invariant
            x <= n,
            depth.len() == x,
            reached_from.len() == x,
            comp.len() == n,
            edges_within(g, n as nat),
            adjacency(backward@.map_values(|v: Vec<usize>| v@), reversed(g), n as nat),
            forall|z: int| 0 <= z < n ==> #[trigger] comp@[z] < depth_of_group.len(),
            forall|z: int| 0 <= z < n ==> depth_is(g, z as usize, #[trigger] depth_of_group@[comp@[z] as int] as nat),
            forall|z: int| 0 <= z < x ==> depth_is(g, z as usize, #[trigger] depth@[z] as nat),
            forall|z: int| 0 <= z < x ==> #[trigger] reached_from@[z] == reaching(g, n as nat, z as usize).len(),
        decreases n - x,
    {
        depth.push(depth_of_group[comp[x]]);
        let c = count_reaching(n, &backward, x, Ghost(g));
        reached_from.push(c);
        proof {
            assert(depth_is(g, x as usize, depth_of_group@[comp@[x as int] as int] as nat));
        }
        x += 1;
    }
    GraphShape { depth, cycle, cycles, reached_from, forward, backward }
}

} // verus!
