//! Breadth-first impact of disconnecting one module: every importer that can
//! no longer reach its dependency, grouped by shortest distance.
use vstd::prelude::*;
use vstd::hash_map::StringHashMap;
use crate::model::{ImpactResult, ModuleAnalysis};
use crate::order::{insert_sorted, strictly_sorted, texts};

verus! {

pub const NOT_FOUND: &'static str = "未找到该模块，请重新分析项目。";
pub const REMOVED: &'static str = "该模块已被移除，请选择仍在塔中的模块。";
pub const INCONSISTENT: &'static str = "依赖图不一致，请重新分析项目。";

/// Why no impact could be computed.
#[derive(Clone, Copy, Debug, PartialEq, Eq, Structural)]
pub enum ImpactError {
    /// No module has the requested identifier.
    NotFound,
    /// The requested module is already disconnected.
    AlreadyRemoved,
    /// An importer named by a reached module is not a module.
    Inconsistent,
}

impl ImpactError {
    /// The user-facing message of this error.
    pub fn message(&self) -> (r: &'static str)
        ensures
            r == match self {
                ImpactError::NotFound => NOT_FOUND,
                ImpactError::AlreadyRemoved => REMOVED,
                ImpactError::Inconsistent => INCONSISTENT,
            },
    {
        match self {
            ImpactError::NotFound => NOT_FOUND,
            ImpactError::AlreadyRemoved => REMOVED,
            ImpactError::Inconsistent => INCONSISTENT,
        }
    }
}

/// The index each identifier denotes: the last module that carries it.
pub open spec fn id_index(ms: Seq<ModuleAnalysis>) -> Map<Seq<char>, int>
    decreases ms.len(),
{
    if ms.len() == 0 {
        Map::empty()
    } else {
        id_index(ms.drop_last()).insert(ms.last().id@, ms.len() - 1)
    }
}

/// The texts of a list of strings, as a set.
pub open spec fn text_set(v: Seq<String>) -> Set<Seq<char>> {
    Set::new(|s: Seq<char>| exists|i: int| 0 <= i < v.len() && #[trigger] v[i]@ == s)
}

/// The importer text `w` leads to module `v`: it is not excluded and it names `v`.
pub open spec fn edge_to(ms: Seq<ModuleAnalysis>, ex: Set<Seq<char>>, w: Seq<char>, v: int) -> bool {
    &&& !ex.contains(w)
    &&& id_index(ms).contains_key(w)
    &&& id_index(ms)[w] == v
}

/// Module `v` imports module `u` (through a listed importer of `u`) and is not excluded.
pub open spec fn step(ms: Seq<ModuleAnalysis>, ex: Set<Seq<char>>, u: int, v: int) -> bool {
    &&& 0 <= u < ms.len()
    &&& exists|j: int|
        0 <= j < ms[u].imported_by@.len() && edge_to(ms, ex, #[trigger] ms[u].imported_by@[j]@, v)
}

/// The modules within `k` steps of `start`.
pub open spec fn reach(ms: Seq<ModuleAnalysis>, ex: Set<Seq<char>>, start: int, k: nat) -> Set<int>
    decreases k,
{
    if k == 0 {
        set![start]
    } else {
        let prev = reach(ms, ex, start, (k - 1) as nat);
        prev.union(Set::new(|v: int| exists|u: int| prev.contains(u) && #[trigger] step(ms, ex, u, v)))
    }
}

/// The modules at distance exactly `k` from `start`.
pub open spec fn layer(ms: Seq<ModuleAnalysis>, ex: Set<Seq<char>>, start: int, k: nat) -> Set<int> {
    if k == 0 {
        set![start]
    } else {
        reach(ms, ex, start, k).difference(reach(ms, ex, start, (k - 1) as nat))
    }
}

/// `u` can be reached from `start` in some number of steps.
pub open spec fn reachable(ms: Seq<ModuleAnalysis>, ex: Set<Seq<char>>, start: int, u: int) -> bool {
    exists|k: nat| #[trigger] reach(ms, ex, start, k).contains(u)
}

/// Module `u` lists an importer that is neither excluded nor a module.
pub open spec fn dangling(ms: Seq<ModuleAnalysis>, ex: Set<Seq<char>>, u: int) -> bool {
    exists|j: int|
        0 <= j < ms[u].imported_by@.len() && !ex.contains(#[trigger] ms[u].imported_by@[j]@)
            && !id_index(ms).contains_key(ms[u].imported_by@[j]@)
}

/// The identifiers of a set of module indices.
pub open spec fn ids_of(ms: Seq<ModuleAnalysis>, s: Set<int>) -> Set<Seq<char>> {
    s.map(|v: int| ms[v].id@)
}

/// The position of every module identifier, as a map.
pub fn index_by_id(modules: &[ModuleAnalysis]) -> (ids: StringHashMap<usize>)
    ensures
        forall|w: Seq<char>| #[trigger] ids@.contains_key(w) <==> id_index(modules@).contains_key(w),
        forall|w: Seq<char>| ids@.contains_key(w) ==> ids@[w] as int == #[trigger] id_index(modules@)[w],
{
    let ghost ms = modules@;
    let n = modules.len();
    let mut ids: StringHashMap<usize> = StringHashMap::new();
    let mut i: usize = 0;
    while i < n
        invariant
            n == modules@.len(),
            ms == modules@,
            i <= n,
            forall|w: Seq<char>| #[trigger]
                ids@.contains_key(w) <==> id_index(ms.take(i as int)).contains_key(w),
            forall|w: Seq<char>|
                ids@.contains_key(w) ==> ids@[w] as int == #[trigger] id_index(ms.take(i as int))[w],
        decreases n - i,
    {
        ids.insert(modules[i].id.clone(), i);
        assert(ms.take(i + 1).drop_last() =~= ms.take(i as int));
        i += 1;
    }
    assert(ms.take(n as int) =~= ms);
    ids
}

/// What `impact` reports for a module set, a requested identifier and the disconnected identifiers.
pub open spec fn impact_spec(
    ms: Seq<ModuleAnalysis>,
    module_id: Seq<char>,
    ex: Set<Seq<char>>,
    r: Result<ImpactResult, ImpactError>,
) -> bool {
    if !id_index(ms).contains_key(module_id) {
        r == Err::<ImpactResult, ImpactError>(ImpactError::NotFound)
    } else if ex.contains(module_id) {
        r == Err::<ImpactResult, ImpactError>(ImpactError::AlreadyRemoved)
    } else {
        let start = id_index(ms)[module_id];
        if exists|u: int| reachable(ms, ex, start, u) && #[trigger] dangling(ms, ex, u) {
            r == Err::<ImpactResult, ImpactError>(ImpactError::Inconsistent)
        } else {
            r is Ok && waves_spec(ms, module_id, ex, start, r->Ok_0)
        }
    }
}

/// The shape of a successful impact result.
pub open spec fn waves_spec(
    ms: Seq<ModuleAnalysis>,
    module_id: Seq<char>,
    ex: Set<Seq<char>>,
    start: int,
    r: ImpactResult,
) -> bool {
    let w = r.waves@;
    let depth = (w.len() - 1) as nat;
    &&& w.len() >= 1
    &&& r.removed_module_id@ == module_id
    &&& texts(w[0]@) == seq![module_id]
    &&& forall|k: int|
        1 <= k < w.len() ==> {
            &&& strictly_sorted(texts(#[trigger] w[k]@))
            &&& texts(w[k]@).to_set() == ids_of(ms, layer(ms, ex, start, k as nat))
            &&& w[k]@.len() > 0
        }
    &&& layer(ms, ex, start, (depth + 1) as nat).is_empty()
    &&& forall|u: int| reachable(ms, ex, start, u) <==> reach(ms, ex, start, depth).contains(u)
    &&& r.total_affected + 1 == reach(ms, ex, start, depth).len()
    &&& r.module_count == ms.len()
    &&& r.max_cascade_depth == depth
    &&& r.direct_affected == (if w.len() > 1 {
        w[1]@.len() as int
    } else {
        0
    })
    &&& r.transitive_affected == r.total_affected - r.direct_affected
}

pub proof fn lemma_id_index(ms: Seq<ModuleAnalysis>, w: Seq<char>)
    ensures
        id_index(ms).contains_key(w) ==> 0 <= id_index(ms)[w] < ms.len() && ms[id_index(
            ms,
        )[w]].id@ == w,
        (exists|i: int| 0 <= i < ms.len() && ms[i].id@ == w) ==> id_index(ms).contains_key(w),
    decreases ms.len(),
{
    if ms.len() > 0 {
        lemma_id_index(ms.drop_last(), w);
        if exists|i: int| 0 <= i < ms.len() && ms[i].id@ == w {
            let i = choose|i: int| 0 <= i < ms.len() && ms[i].id@ == w;
            if i < ms.len() - 1 {
                assert(ms.drop_last()[i].id@ == w);
            }
        }
    }
}

pub proof fn lemma_reach_bounds(ms: Seq<ModuleAnalysis>, ex: Set<Seq<char>>, start: int, k: nat)
    requires
        0 <= start < ms.len(),
    ensures
        forall|v: int| reach(ms, ex, start, k).contains(v) ==> 0 <= v < ms.len(),
        reach(ms, ex, start, k).finite(),
        reach(ms, ex, start, k).len() <= ms.len(),
    decreases k,
{
    if k > 0 {
        lemma_reach_bounds(ms, ex, start, (k - 1) as nat);
        assert forall|v: int| reach(ms, ex, start, k).contains(v) implies 0 <= v < ms.len() by {
            let prev = reach(ms, ex, start, (k - 1) as nat);
            if !prev.contains(v) {
                let u = choose|u: int| prev.contains(u) && #[trigger] step(ms, ex, u, v);
                let j = choose|j: int|
                    0 <= j < ms[u].imported_by@.len() && edge_to(
                        ms,
                        ex,
                        #[trigger] ms[u].imported_by@[j]@,
                        v,
                    );
                lemma_id_index(ms, ms[u].imported_by@[j]@);
            }
        }
    }
    let r = reach(ms, ex, start, k);
    vstd::set_lib::lemma_int_range(0, ms.len() as int);
    assert(r.subset_of(vstd::set_lib::set_int_range(0, ms.len() as int)));
    vstd::set_lib::lemma_len_subset(r, vstd::set_lib::set_int_range(0, ms.len() as int));
}

proof fn lemma_reach_monotone(ms: Seq<ModuleAnalysis>, ex: Set<Seq<char>>, start: int, a: nat, b: nat)
    requires
        a <= b,
    ensures
        reach(ms, ex, start, a).subset_of(reach(ms, ex, start, b)),
    decreases b - a,
{
    if a < b {
        lemma_reach_monotone(ms, ex, start, a, (b - 1) as nat);
    }
}

/// Once a round adds nothing, no later round adds anything.
proof fn lemma_reach_stable(ms: Seq<ModuleAnalysis>, ex: Set<Seq<char>>, start: int, k: nat, m: nat)
    requires
        reach(ms, ex, start, k + 1) == reach(ms, ex, start, k),
        k <= m,
    ensures
        reach(ms, ex, start, m) == reach(ms, ex, start, k),
    decreases m - k,
{
    if m > k {
        lemma_reach_stable(ms, ex, start, k, (m - 1) as nat);
        assert(reach(ms, ex, start, m) =~= reach(ms, ex, start, k + 1));
    }
}

proof fn lemma_reachable_final(ms: Seq<ModuleAnalysis>, ex: Set<Seq<char>>, start: int, k: nat)
    requires
        reach(ms, ex, start, k + 1) == reach(ms, ex, start, k),
    ensures
        forall|u: int| reachable(ms, ex, start, u) <==> reach(ms, ex, start, k).contains(u),
{
    assert forall|u: int| reachable(ms, ex, start, u) implies reach(ms, ex, start, k).contains(u) by {
        let m = choose|m: nat| #[trigger] reach(ms, ex, start, m).contains(u);
        if m <= k {
            lemma_reach_monotone(ms, ex, start, m, k);
        } else {
            lemma_reach_stable(ms, ex, start, k, m);
        }
    }
    assert forall|u: int| reach(ms, ex, start, k).contains(u) implies reachable(ms, ex, start, u) by {
        assert(reach(ms, ex, start, k).contains(u));
    }
}

/// A module at distance `k` that `v` imports puts `v` within `k + 1` steps.
proof fn lemma_step_reach(
    ms: Seq<ModuleAnalysis>,
    ex: Set<Seq<char>>,
    start: int,
    k: nat,
    u: int,
    j: int,
    v: int,
)
    requires
        reach(ms, ex, start, k).contains(u),
        0 <= u < ms.len(),
        0 <= j < ms[u].imported_by@.len(),
        edge_to(ms, ex, ms[u].imported_by@[j]@, v),
    ensures
        step(ms, ex, u, v),
        reach(ms, ex, start, k + 1).contains(v),
{
    assert(step(ms, ex, u, v));
}

/// Successors of a set of modules that are not yet in it.
pub open spec fn fresh(ms: Seq<ModuleAnalysis>, ex: Set<Seq<char>>, from: Set<int>, seen: Set<int>) -> Set<int> {
    Set::new(|v: int| exists|u: int| from.contains(u) && #[trigger] step(ms, ex, u, v)).difference(seen)
}

/// The next layer consists of the fresh successors of the current one.
proof fn lemma_next_layer(ms: Seq<ModuleAnalysis>, ex: Set<Seq<char>>, start: int, k: nat)
    ensures
        layer(ms, ex, start, k + 1) == fresh(ms, ex, layer(ms, ex, start, k), reach(ms, ex, start, k)),
        reach(ms, ex, start, k + 1) == reach(ms, ex, start, k).union(layer(ms, ex, start, k + 1)),
        layer(ms, ex, start, k).subset_of(reach(ms, ex, start, k)),
{
    let cur = reach(ms, ex, start, k);
    let nxt = reach(ms, ex, start, k + 1);
    let l = layer(ms, ex, start, k);
    let f = fresh(ms, ex, l, cur);
    assert forall|v: int| nxt.difference(cur).contains(v) <==> f.contains(v) by {
        if nxt.difference(cur).contains(v) {
            let u = choose|u: int| cur.contains(u) && #[trigger] step(ms, ex, u, v);
            if k > 0 && !l.contains(u) {
                let prev = reach(ms, ex, start, (k - 1) as nat);
                assert(prev.contains(u));
                assert(cur.contains(v));
            }
            assert(l.contains(u));
        }
        if f.contains(v) {
            let u = choose|u: int| l.contains(u) && #[trigger] step(ms, ex, u, v);
            assert(cur.contains(u));
        }
    }
    assert(layer(ms, ex, start, k + 1) =~= f);
    assert(nxt =~= cur.union(layer(ms, ex, start, k + 1)));
}

/// Indices of modules in a list, as a set.
pub open spec fn index_set(v: Seq<usize>) -> Set<int> {
    Set::new(|x: int| exists|i: int| 0 <= i < v.len() && #[trigger] v[i] as int == x)
}

proof fn lemma_index_set_push(v: Seq<usize>, x: usize)
    ensures
        index_set(v.push(x)) == index_set(v).insert(x as int),
{
    let w = v.push(x);
    assert forall|y: int| index_set(w).contains(y) <==> index_set(v).insert(x as int).contains(y) by {
        if index_set(w).contains(y) {
            let i = choose|i: int| 0 <= i < w.len() && #[trigger] w[i] as int == y;
            if i < v.len() {
                assert(v[i] as int == y);
            }
        }
        if index_set(v).contains(y) {
            let i = choose|i: int| 0 <= i < v.len() && #[trigger] v[i] as int == y;
            assert(w[i] as int == y);
        }
        if y == x as int {
            assert(w[v.len() as int] as int == y);
        }
    }
    assert(index_set(w) =~= index_set(v).insert(x as int));
}

/// A list without repetitions has as many members as entries.
proof fn lemma_distinct_len(v: Seq<usize>)
    requires
        forall|a: int, b: int| 0 <= a < b < v.len() ==> v[a] != v[b],
    ensures
        index_set(v).finite(),
        index_set(v).len() == v.len(),
    decreases v.len(),
{
    if v.len() == 0 {
        assert(index_set(v) =~= Set::<int>::empty());
    } else {
        let u = v.drop_last();
        lemma_distinct_len(u);
        assert(v =~= u.push(v.last()));
        lemma_index_set_push(u, v.last());
        if index_set(u).contains(v.last() as int) {
            let i = choose|i: int| 0 <= i < u.len() && #[trigger] u[i] as int == v.last() as int;
            assert(v[i] == v[v.len() - 1]);
        }
    }
}

/// Room for one more module inside a bounded set.
proof fn lemma_count_room(cur: Set<int>, nx: Set<int>, x: int, r: Set<int>)
    requires
        cur.finite(),
        nx.finite(),
        r.finite(),
        cur.subset_of(r),
        nx.subset_of(r.difference(cur)),
        r.contains(x),
        !cur.contains(x),
        !nx.contains(x),
    ensures
        cur.len() + nx.len() + 1 <= r.len(),
{
    let all = cur + nx.insert(x);
    assert(cur.disjoint(nx.insert(x)));
    vstd::set_lib::lemma_set_disjoint_lens(cur, nx.insert(x));
    assert(all.subset_of(r));
    vstd::set_lib::lemma_len_subset(all, r);
}

/// The identifiers of the given modules, sorted.
fn sorted_ids(modules: &[ModuleAnalysis], picked: &Vec<usize>) -> (r: Vec<String>)
    requires
        forall|i: int| 0 <= i < picked@.len() ==> #[trigger] picked@[i] < modules@.len(),
        forall|i: int, j: int|
            0 <= i < j < picked@.len() ==> modules@[#[trigger] picked@[i] as int].id@
                != modules@[#[trigger] picked@[j] as int].id@,
    ensures
        strictly_sorted(texts(r@)),
        texts(r@).to_set() == ids_of(modules@, index_set(picked@)),
        r@.len() == picked@.len(),
{
    let mut r: Vec<String> = Vec::new();
    let mut i: usize = 0;
    while i < picked.len()
        invariant
            i <= picked@.len(),
            forall|a: int| 0 <= a < picked@.len() ==> #[trigger] picked@[a] < modules@.len(),
            forall|a: int, b: int|
                0 <= a < b < picked@.len() ==> modules@[#[trigger] picked@[a] as int].id@
                    != modules@[#[trigger] picked@[b] as int].id@,
            strictly_sorted(texts(r@)),
            texts(r@).to_set() == ids_of(modules@, index_set(picked@.take(i as int))),
            r@.len() == i,
        decreases picked@.len() - i,
    {
        let id = modules[picked[i]].id.clone();
        proof {
            if texts(r@).contains(id@) {
                let s = texts(r@).to_set();
                assert(s.contains(id@));
                let v = choose|v: int| index_set(picked@.take(i as int)).contains(v) && modules@[v].id@
                    == id@;
                let a = choose|a: int| 0 <= a < i && picked@.take(i as int)[a] as int == v;
                assert(picked@[a] as int == v);
                assert(modules@[picked@[a] as int].id@ != modules@[picked@[i as int] as int].id@);
            }
        }
        insert_sorted(&mut r, id);
        proof {
            let t1 = picked@.take(i + 1);
            let t0 = picked@.take(i as int);
            assert(index_set(t1) =~= index_set(t0).insert(picked@[i as int] as int)) by {
                assert forall|x: int|
                    index_set(t1).contains(x) <==> index_set(t0).insert(picked@[i as int] as int).contains(x) by {
                    if index_set(t1).contains(x) {
                        let a = choose|a: int| 0 <= a < t1.len() && #[trigger] t1[a] as int == x;
                        if a < i {
                            assert(t0[a] as int == x);
                        }
                    }
                    if index_set(t0).contains(x) {
                        let a = choose|a: int| 0 <= a < t0.len() && #[trigger] t0[a] as int == x;
                        assert(t1[a] as int == x);
                    }
                    if x == picked@[i as int] as int {
                        assert(t1[i as int] as int == x);
                    }
                }
            }
            let y0 = ids_of(modules@, index_set(t0));
            let y1 = ids_of(modules@, index_set(t1));
            assert forall|y: Seq<char>| y1.contains(y) <==> y0.insert(id@).contains(y) by {
                if y1.contains(y) {
                    let x = choose|x: int| index_set(t1).contains(x) && y == modules@[x].id@;
                    if x != picked@[i as int] as int {
                        assert(index_set(t0).contains(x));
                        assert(y0.contains(y));
                    }
                }
                if y0.contains(y) {
                    let x = choose|x: int| index_set(t0).contains(x) && y == modules@[x].id@;
                    assert(index_set(t1).contains(x));
                }
                if y == id@ {
                    assert(index_set(t1).contains(picked@[i as int] as int));
                }
            }
            assert(y1 =~= y0.insert(id@));
        }
        i += 1;
    }
    assert(picked@.take(picked@.len() as int) =~= picked@);
    r
}

/// Disconnects `module_id` and follows its importers breadth-first, never
/// through a module listed in `excluded`. Wave 0 is the module itself; wave
/// `k` holds, in text order, the modules at shortest distance `k`.
pub fn impact(modules: &[ModuleAnalysis], module_id: &str, excluded: &[String]) -> (r: Result<
    ImpactResult,
    ImpactError,
>)
    ensures
        impact_spec(modules@, module_id@, text_set(excluded@), r),
{
    let ghost ms = modules@;
    let n = modules.len();
    let ids = index_by_id(modules);
    let ghost ex = text_set(excluded@);
    let mut removed: StringHashMap<()> = StringHashMap::new();
    let mut e: usize = 0;
    while e < excluded.len()
        invariant
            e <= excluded@.len(),
            forall|w: Seq<char>| #[trigger]
                removed@.contains_key(w) <==> exists|a: int| 0 <= a < e && excluded@[a]@ == w,
        decreases excluded@.len() - e,
    {
        removed.insert(excluded[e].clone(), ());
        proof {
            assert forall|w: Seq<char>| #[trigger]
                removed@.contains_key(w) <==> exists|a: int| 0 <= a < e + 1 && excluded@[a]@ == w by {
                if w == excluded@[e as int]@ {
                    assert(excluded@[e as int]@ == w);
                }
                if removed@.contains_key(w) && w != excluded@[e as int]@ {
                    let a = choose|a: int| 0 <= a < e && excluded@[a]@ == w;
                    assert(0 <= a < e + 1);
                }
            }
        }
        e += 1;
    }
    assert(forall|w: Seq<char>| removed@.contains_key(w) <==> #[trigger] ex.contains(w));
    let start = match ids.get(module_id) {
        Some(s) => *s,
        None => return Err(ImpactError::NotFound),
    };
    if removed.contains_key(module_id) {
        return Err(ImpactError::AlreadyRemoved);
    }
    proof {
        lemma_id_index(ms, module_id@);
    }
    let ghost s = start as int;
    let mut visited: Vec<bool> = Vec::new();
    let mut v: usize = 0;
    while v < n
        invariant
            v <= n,
            visited@.len() == v,
            forall|x: int| 0 <= x < v ==> !#[trigger] visited@[x],
        decreases n - v,
    {
        visited.push(false);
        v += 1;
    }
    visited.set(start, true);
    let mut count: usize = 1;
    let mut frontier: Vec<usize> = Vec::new();
    frontier.push(start);
    let mut waves: Vec<Vec<String>> = Vec::new();
    let mut first: Vec<String> = Vec::new();
    first.push(module_id.to_string());
    waves.push(first);
    let ghost mut k: nat = 0;
    proof {
        lemma_reach_bounds(ms, ex, s, 0);
        assert(frontier@[0] as int == s);
        assert(index_set(frontier@) =~= set![s]);
        assert(reach(ms, ex, s, 0) =~= set![s]);
        assert(texts(waves@[0]@) =~= seq![module_id@]);
    }
    loop
        invariant
            n == modules@.len(),
            ms == modules@,
            ex == text_set(excluded@),
            0 <= s < n,
            ms[s].id@ == module_id@,
            id_index(ms)[module_id@] == s,
            id_index(ms).contains_key(module_id@),
            !ex.contains(module_id@),
            forall|w: Seq<char>| #[trigger] ids@.contains_key(w) <==> id_index(ms).contains_key(w),
            forall|w: Seq<char>| ids@.contains_key(w) ==> ids@[w] as int == #[trigger] id_index(ms)[w],
            forall|w: Seq<char>| removed@.contains_key(w) <==> #[trigger] ex.contains(w),
            visited@.len() == n,
            forall|x: int| 0 <= x < n ==> (#[trigger] visited@[x] <==> reach(ms, ex, s, k).contains(x)),
            index_set(frontier@) == layer(ms, ex, s, k),
            forall|a: int| 0 <= a < frontier@.len() ==> #[trigger] frontier@[a] < n,
            forall|a: int, b: int| 0 <= a < b < frontier@.len() ==> frontier@[a] != frontier@[b],
            count as int == reach(ms, ex, s, k).len(),
            count <= n,
            waves@.len() == k + 1,
            k >= 1 ==> waves@[1]@.len() + 1 <= count,
            texts(waves@[0]@) == seq![module_id@],
            forall|j: int|
                1 <= j < waves@.len() ==> {
                    &&& strictly_sorted(texts(#[trigger] waves@[j]@))
                    &&& texts(waves@[j]@).to_set() == ids_of(ms, layer(ms, ex, s, j as nat))
                    &&& waves@[j]@.len() > 0
                },
            forall|u: int|
                reach(ms, ex, s, k).contains(u) && !layer(ms, ex, s, k).contains(u) ==> !#[trigger] dangling(
                    ms,
                    ex,
                    u,
                ),
        ensures
            layer(ms, ex, s, k + 1).is_empty(),
            forall|u: int| reachable(ms, ex, s, u) <==> reach(ms, ex, s, k).contains(u),
            forall|u: int| reachable(ms, ex, s, u) ==> !#[trigger] dangling(ms, ex, u),
        decreases n - count,
    {
        let ghost cur = reach(ms, ex, s, k);
        let ghost lay = layer(ms, ex, s, k);
        proof {
            lemma_next_layer(ms, ex, s, k);
            lemma_reach_bounds(ms, ex, s, k);
            lemma_reach_bounds(ms, ex, s, k + 1);
        }
        let mut next: Vec<usize> = Vec::new();
        let mut a: usize = 0;
        while a < frontier.len()
            invariant
                n == modules@.len(),
                ms == modules@,
                ex == text_set(excluded@),
                0 <= s < n,
                id_index(ms).contains_key(module_id@),
                id_index(ms)[module_id@] == s,
                !ex.contains(module_id@),
                a <= frontier@.len(),
                forall|w: Seq<char>| #[trigger] ids@.contains_key(w) <==> id_index(ms).contains_key(w),
                forall|w: Seq<char>| ids@.contains_key(w) ==> ids@[w] as int == #[trigger] id_index(ms)[w],
                forall|w: Seq<char>| removed@.contains_key(w) <==> #[trigger] ex.contains(w),
                visited@.len() == n,
                index_set(frontier@) == lay,
                lay.subset_of(cur),
                forall|x: int| #[trigger] cur.contains(x) ==> 0 <= x < n,
                forall|b: int| 0 <= b < frontier@.len() ==> #[trigger] frontier@[b] < n,
                forall|x: int|
                    0 <= x < n ==> (#[trigger] visited@[x] <==> cur.contains(x) || index_set(next@).contains(x)),
                index_set(next@) == fresh(ms, ex, index_set(frontier@.take(a as int)), cur),
                index_set(next@).subset_of(reach(ms, ex, s, k + 1).difference(cur)),
                cur == reach(ms, ex, s, k),
                lay == layer(ms, ex, s, k),
                cur.finite(),
                reach(ms, ex, s, k + 1).finite(),
                reach(ms, ex, s, k + 1).len() <= n,
                cur.subset_of(reach(ms, ex, s, k + 1)),
                forall|b: int| 0 <= b < next@.len() ==> #[trigger] next@[b] < n,
                forall|b: int, c: int| 0 <= b < c < next@.len() ==> next@[b] != next@[c],
                count as int == cur.len() + next@.len(),
                forall|b: int| 0 <= b < a ==> !#[trigger] dangling(ms, ex, frontier@[b] as int),
            decreases frontier@.len() - a,
        {
            let current = frontier[a];
            let importers = &modules[current].imported_by;
            let mut b: usize = 0;
            let ghost base = fresh(ms, ex, index_set(frontier@.take(a as int)), cur);
            while b < importers.len()
                invariant
                    n == modules@.len(),
                    ms == modules@,
                    ex == text_set(excluded@),
                    0 <= s < n,
                    id_index(ms).contains_key(module_id@),
                    id_index(ms)[module_id@] == s,
                    !ex.contains(module_id@),
                    current < n,
                    importers == &modules@[current as int].imported_by,
                    b <= importers@.len(),
                    forall|w: Seq<char>| #[trigger] ids@.contains_key(w) <==> id_index(ms).contains_key(w),
                    forall|w: Seq<char>| ids@.contains_key(w) ==> ids@[w] as int == #[trigger] id_index(ms)[w],
                    forall|w: Seq<char>| removed@.contains_key(w) <==> #[trigger] ex.contains(w),
                    visited@.len() == n,
                    forall|x: int| #[trigger] cur.contains(x) ==> 0 <= x < n,
                    forall|x: int|
                        0 <= x < n ==> (#[trigger] visited@[x] <==> cur.contains(x) || index_set(next@).contains(x)),
                    index_set(next@) == base.union(
                        Set::new(|v: int| exists|j: int| 0 <= j < b && edge_to(ms, ex, #[trigger] importers@[j]@, v)).difference(cur),
                    ),
                    forall|c: int| 0 <= c < next@.len() ==> #[trigger] next@[c] < n,
                    forall|c: int, d: int| 0 <= c < d < next@.len() ==> next@[c] != next@[d],
                    count as int == cur.len() + next@.len(),
                    a < frontier@.len(),
                    current == frontier@[a as int],
                    index_set(frontier@) == lay,
                    lay.subset_of(cur),
                    cur == reach(ms, ex, s, k),
                    lay == layer(ms, ex, s, k),
                    index_set(next@).subset_of(reach(ms, ex, s, k + 1).difference(cur)),
                    cur.finite(),
                    reach(ms, ex, s, k + 1).finite(),
                    reach(ms, ex, s, k + 1).len() <= n,
                    cur.subset_of(reach(ms, ex, s, k + 1)),
                    forall|j: int|
                        0 <= j < b ==> !ex.contains(#[trigger] importers@[j]@) ==> id_index(ms).contains_key(importers@[j]@),
                decreases importers@.len() - b,
            {
                let importer = importers[b].as_str();
                if removed.contains_key(importer) {
                    proof {
                        let grown = Set::new(|v: int| exists|j: int| 0 <= j < b + 1 && edge_to(ms, ex, #[trigger] importers@[j]@, v));
                        let old_set = Set::new(|v: int| exists|j: int| 0 <= j < b && edge_to(ms, ex, #[trigger] importers@[j]@, v));
                        assert forall|x: int| #[trigger] grown.contains(x) <==> old_set.contains(x) by {
                            if grown.contains(x) {
                                let j = choose|j: int| 0 <= j < b + 1 && edge_to(ms, ex, #[trigger] importers@[j]@, x);
                                assert(j != b);
                                assert(old_set.contains(x));
                            }
                            if old_set.contains(x) {
                                let j = choose|j: int| 0 <= j < b && edge_to(ms, ex, #[trigger] importers@[j]@, x);
                                assert(0 <= j < b + 1);
                            }
                        }
                        assert(grown =~= old_set);
                    }
                    b += 1;
                    continue;
                }
                let index = match ids.get(importer) {
                    Some(x) => *x,
                    None => {
                        proof {
                            assert(dangling(ms, ex, current as int)) by {
                                assert(!ex.contains(importers@[b as int]@));
                            }
                            assert(lay.contains(current as int)) by {
                                assert(index_set(frontier@).contains(frontier@[a as int] as int));
                            }
                            assert(reach(ms, ex, s, k).contains(current as int));
                            assert(reachable(ms, ex, s, current as int));
                        }
                        return Err(ImpactError::Inconsistent);
                    },
                };
                proof {
                    lemma_id_index(ms, importer@);
                }
                let ghost before_next = next@;
                proof {
                    assert(lay.contains(current as int)) by {
                        assert(index_set(frontier@).contains(frontier@[a as int] as int));
                    }
                    lemma_step_reach(ms, ex, s, k, current as int, b as int, index as int);
                }
                if !visited[index] {
                    proof {
                        lemma_distinct_len(next@);
                        lemma_count_room(cur, index_set(next@), index as int, reach(ms, ex, s, k + 1));
                    }
                    visited.set(index, true);
                    next.push(index);
                    count += 1;
                }
                proof {
                    assert(edge_to(ms, ex, importers@[b as int]@, index as int));
                    let grown = Set::new(|v: int| exists|j: int| 0 <= j < b + 1 && edge_to(ms, ex, #[trigger] importers@[j]@, v));
                    let old_set = Set::new(|v: int| exists|j: int| 0 <= j < b && edge_to(ms, ex, #[trigger] importers@[j]@, v));
                    assert(grown =~= old_set.insert(index as int)) by {
                        assert forall|x: int| grown.contains(x) <==> old_set.insert(index as int).contains(x) by {
                            if grown.contains(x) {
                                let j = choose|j: int| 0 <= j < b + 1 && edge_to(ms, ex, #[trigger] importers@[j]@, x);
                                if j < b {
                                    assert(old_set.contains(x));
                                }
                            }
                            if old_set.contains(x) {
                                let j = choose|j: int| 0 <= j < b && edge_to(ms, ex, #[trigger] importers@[j]@, x);
                                assert(0 <= j < b + 1);
                            }
                            if x == index as int {
                                assert(edge_to(ms, ex, importers@[b as int]@, x));
                            }
                        }
                    }
                    assert(index_set(next@) =~= base.union(grown.difference(cur))) by {
                        if next@.len() > before_next.len() {
                            assert(next@ == before_next.push(index));
                            assert forall|x: int| index_set(next@).contains(x) <==> index_set(before_next).insert(index as int).contains(x) by {
                                if index_set(next@).contains(x) {
                                    let c = choose|c: int| 0 <= c < next@.len() && next@[c] as int == x;
                                    if c < before_next.len() {
                                        assert(before_next[c] as int == x);
                                    }
                                }
                                if index_set(before_next).contains(x) {
                                    let c = choose|c: int| 0 <= c < before_next.len() && before_next[c] as int == x;
                                    assert(next@[c] as int == x);
                                }
                                if x == index as int {
                                    assert(next@[before_next.len() as int] as int == x);
                                }
                            }
                        }
                    }
                    assert forall|c: int, d: int| 0 <= c < d < next@.len() implies next@[c] != next@[d] by {
                        if next@.len() > before_next.len() && d == before_next.len() {
                            assert(index_set(before_next).contains(next@[c] as int)) by {
                                assert(before_next[c] == next@[c]);
                            }
                        }
                    }
                }
                b += 1;
            }
            proof {
                assert(!dangling(ms, ex, current as int)) by {
                    if dangling(ms, ex, current as int) {
                        let j = choose|j: int|
                            0 <= j < ms[current as int].imported_by@.len() && !ex.contains(#[trigger] ms[current as int].imported_by@[j]@)
                                && !id_index(ms).contains_key(ms[current as int].imported_by@[j]@);
                        assert(importers@[j] == ms[current as int].imported_by@[j]);
                    }
                }
                let done = Set::new(|v: int| exists|j: int| 0 <= j < importers@.len() && edge_to(ms, ex, #[trigger] importers@[j]@, v));
                let f0 = frontier@.take(a as int);
                let f1 = frontier@.take(a + 1);
                let from_before = index_set(f0);
                let from_after = index_set(f1);
                assert(from_after =~= from_before.insert(current as int)) by {
                    assert forall|x: int| from_after.contains(x) <==> from_before.insert(current as int).contains(x) by {
                        if from_after.contains(x) {
                            let c = choose|c: int| 0 <= c < f1.len() && #[trigger] f1[c] as int == x;
                            if c < a {
                                assert(f0[c] as int == x);
                            }
                        }
                        if from_before.contains(x) {
                            let c = choose|c: int| 0 <= c < f0.len() && #[trigger] f0[c] as int == x;
                            assert(f1[c] as int == x);
                        }
                        if x == current as int {
                            assert(f1[a as int] as int == x);
                        }
                    }
                }
                assert(fresh(ms, ex, from_after, cur) =~= base.union(done.difference(cur))) by {
                    assert forall|x: int| fresh(ms, ex, from_after, cur).contains(x) <==> base.union(done.difference(cur)).contains(x) by {
                        if fresh(ms, ex, from_after, cur).contains(x) {
                            let u = choose|u: int| from_after.contains(u) && #[trigger] step(ms, ex, u, x);
                            if u == current as int {
                                let j = choose|j: int| 0 <= j < ms[u].imported_by@.len() && edge_to(ms, ex, #[trigger] ms[u].imported_by@[j]@, x);
                                assert(importers@[j] == ms[u].imported_by@[j]);
                                assert(done.contains(x));
                            } else {
                                assert(from_before.contains(u));
                                assert(base.contains(x));
                            }
                        }
                        if base.contains(x) {
                            let u = choose|u: int| from_before.contains(u) && #[trigger] step(ms, ex, u, x);
                            assert(from_after.contains(u));
                        }
                        if done.difference(cur).contains(x) {
                            let j = choose|j: int| 0 <= j < importers@.len() && edge_to(ms, ex, #[trigger] importers@[j]@, x);
                            assert(ms[current as int].imported_by@[j] == importers@[j]);
                            assert(step(ms, ex, current as int, x));
                            assert(from_after.contains(current as int));
                        }
                    }
                }
            }
            a += 1;
        }
        proof {
            assert(frontier@.take(frontier@.len() as int) =~= frontier@);
            assert(index_set(next@) == layer(ms, ex, s, k + 1));
            assert forall|u: int|
                reach(ms, ex, s, k + 1).contains(u) && !layer(ms, ex, s, k + 1).contains(u) implies !#[trigger] dangling(ms, ex, u) by {
                if lay.contains(u) {
                    let b = choose|b: int| 0 <= b < frontier@.len() && frontier@[b] as int == u;
                }
            }
        }
        if next.len() == 0 {
            proof {
                assert(layer(ms, ex, s, k + 1) =~= Set::<int>::empty()) by {
                    assert forall|x: int| !#[trigger] layer(ms, ex, s, k + 1).contains(x) by {
                        if layer(ms, ex, s, k + 1).contains(x) {
                            assert(index_set(next@).contains(x));
                        }
                    }
                }
                assert(reach(ms, ex, s, k + 1) =~= reach(ms, ex, s, k));
                lemma_reachable_final(ms, ex, s, k);
                assert forall|u: int| reachable(ms, ex, s, u) implies !#[trigger] dangling(ms, ex, u) by {
                    if lay.contains(u) {
                        let b = choose|b: int| 0 <= b < frontier@.len() && frontier@[b] as int == u;
                    }
                }
            }
            break;
        }
        proof {
            assert forall|c: int, d: int|
                0 <= c < d < next@.len() implies ms[#[trigger] next@[c] as int].id@ != ms[#[trigger] next@[d] as int].id@ by {
                let x = next@[c] as int;
                let y = next@[d] as int;
                assert(index_set(next@).contains(x));
                assert(index_set(next@).contains(y));
                let jx = choose|u: int| lay.contains(u) && #[trigger] step(ms, ex, u, x);
                let jy = choose|u: int| lay.contains(u) && #[trigger] step(ms, ex, u, y);
                let wx = choose|j: int| 0 <= j < ms[jx].imported_by@.len() && edge_to(ms, ex, #[trigger] ms[jx].imported_by@[j]@, x);
                let wy = choose|j: int| 0 <= j < ms[jy].imported_by@.len() && edge_to(ms, ex, #[trigger] ms[jy].imported_by@[j]@, y);
                lemma_id_index(ms, ms[jx].imported_by@[wx]@);
                lemma_id_index(ms, ms[jy].imported_by@[wy]@);
            }
        }
        proof {
            lemma_distinct_len(next@);
            let l1 = layer(ms, ex, s, k + 1);
            assert(cur.disjoint(l1));
            vstd::set_lib::lemma_set_disjoint_lens(cur, l1);
            assert(reach(ms, ex, s, k + 1) == cur + l1);
        }
        let ids_wave = sorted_ids(modules, &next);
        waves.push(ids_wave);
        frontier = next;
        proof {
            k = k + 1;
        }
    }
    let depth = waves.len() - 1;
    let total_affected = count - 1;
    let direct = if waves.len() > 1 {
        waves[1].len()
    } else {
        0
    };
    let result = ImpactResult {
        removed_module_id: module_id.to_string(),
        total_affected,
        module_count: n,
        direct_affected: direct,
        transitive_affected: total_affected - direct,
        max_cascade_depth: depth,
        waves,
    };
    proof {
        let w = result.waves@;
        assert(w.len() == k + 1);
        assert(((w.len() - 1) as nat) == k);
        assert(result.removed_module_id@ == module_id@);
        assert(texts(w[0]@) == seq![module_id@]);
        assert(layer(ms, ex, s, (k + 1) as nat).is_empty());
        assert(result.total_affected + 1 == reach(ms, ex, s, k).len());
        assert(waves_spec(ms, module_id@, ex, s, result));
        assert(!(exists|u: int| reachable(ms, ex, s, u) && #[trigger] dangling(ms, ex, u)));
    }
    Ok(result)
}

} // verus!
