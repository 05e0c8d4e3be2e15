//! Graph metrics of the analysed modules: neighbours, depth, cycles, blast
//! radius and the most critical modules.
use vstd::prelude::*;
use crate::graph::{cycle_numbering, depth_is, edges_within, has_edge, lemma_reaches_edge, lemma_reaches_trans, reaches, reaching, reversed, shape_of, shape_spec, walk};
use crate::impact::{
    edge_to, id_index, impact_spec, index_by_id, lemma_id_index, reach, reachable, step,
};
use crate::model::ImpactResult;
use crate::impact::ImpactError;
use crate::model::{DependencyEdge, ModuleAnalysis};
use crate::order::{insert_sorted, lemma_lt_asymmetric, lemma_lt_irreflexive, lemma_lt_total, lemma_lt_transitive, strictly_sorted, texts};
use crate::text_util::{seq_lt, str_eq, str_lt};

verus! {

/// The module identifiers are pairwise distinct.
pub open spec fn distinct_ids(ms: Seq<ModuleAnalysis>) -> bool {
    forall|i: int, j: int| 0 <= i < ms.len() && 0 <= j < ms.len() && i != j ==> #[trigger] ms[i].id@ != #[trigger] ms[j].id@
}

/// Both ends of every edge are module identifiers.
pub open spec fn edges_known(ms: Seq<ModuleAnalysis>, es: Seq<DependencyEdge>) -> bool {
    forall|k: int|
        0 <= k < es.len() ==> id_index(ms).contains_key((#[trigger] es[k]).source@) && id_index(ms).contains_key(
            es[k].target@,
        )
}

/// No two edges join the same importer to the same dependency.
pub open spec fn distinct_links(es: Seq<DependencyEdge>) -> bool {
    forall|k: int, l: int|
        0 <= k < es.len() && 0 <= l < es.len() && k != l ==> !(#[trigger] es[k].source@ == #[trigger] es[l].source@
            && es[k].target@ == es[l].target@)
}

/// The edges as pairs of module positions.
pub open spec fn links(ms: Seq<ModuleAnalysis>, es: Seq<DependencyEdge>) -> Seq<(usize, usize)> {
    es.map_values(|e: DependencyEdge| (id_index(ms)[e.source@] as usize, id_index(ms)[e.target@] as usize))
}

/// The dependencies that edges give the module `id`.
pub open spec fn targets_of(es: Seq<DependencyEdge>, id: Seq<char>) -> Set<Seq<char>> {
    Set::new(|t: Seq<char>| exists|k: int| 0 <= k < es.len() && #[trigger] es[k].source@ == id && es[k].target@ == t)
}

/// The importers that edges give the module `id`.
pub open spec fn sources_of(es: Seq<DependencyEdge>, id: Seq<char>) -> Set<Seq<char>> {
    Set::new(|s: Seq<char>| exists|k: int| 0 <= k < es.len() && #[trigger] es[k].target@ == id && es[k].source@ == s)
}

/// The fields that describe the file itself are kept.
pub open spec fn same_file(o: ModuleAnalysis, m: ModuleAnalysis) -> bool {
    &&& m.id == o.id
    &&& m.relative_path == o.relative_path
    &&& m.file_name == o.file_name
    &&& m.extension == o.extension
    &&& m.directory == o.directory
    &&& m.lines_of_code == o.lines_of_code
    &&& m.unresolved_imports == o.unresolved_imports
}

/// The cycle number of a module, zero when it lies on no cycle.
pub open spec fn cycle_number(m: ModuleAnalysis) -> usize {
    match m.cycle_id {
        Some(c) => c,
        None => 0,
    }
}

/// The metrics of module `i`, given the edges of the module list it belongs to.
pub open spec fn module_metrics(ms: Seq<ModuleAnalysis>, es: Seq<DependencyEdge>, i: int, m: ModuleAnalysis) -> bool {
    same_file(ms[i], m) && graph_metrics(ms, es, i, m)
}

/// The graph figures of module `i`: neighbours, depth, blast radius and cycle mark.
pub open spec fn graph_metrics(ms: Seq<ModuleAnalysis>, es: Seq<DependencyEdge>, i: int, m: ModuleAnalysis) -> bool {
    let g = links(ms, es);
    &&& strictly_sorted(texts(m.imports@))
    &&& texts(m.imports@).to_set() == targets_of(es, ms[i].id@)
    &&& strictly_sorted(texts(m.imported_by@))
    &&& texts(m.imported_by@).to_set() == sources_of(es, ms[i].id@)
    &&& m.fan_out == m.imports.len()
    &&& m.fan_in == m.imported_by.len()
    &&& m.is_entry_like == (m.fan_in == 0)
    &&& depth_is(g, i as usize, m.dependency_depth as nat)
    &&& m.blast_radius + 1 == reaching(g, ms.len(), i as usize).len()
    &&& m.cycle_id != Some(0usize)
}

/// The summary figures of the graph.
pub struct GraphMetrics {
    /// How many strongly connected components lie on cycles.
    pub cycles: usize,
    /// The identifiers of at most twelve modules with the largest blast radius.
    pub critical: Vec<String>,
}

/// The identifiers of the modules at the given positions.
pub open spec fn ids_at(ms: Seq<ModuleAnalysis>, list: Seq<usize>) -> Set<Seq<char>> {
    Set::new(|w: Seq<char>| exists|k: int| 0 <= k < list.len() && #[trigger] ms[list[k] as int].id@ == w)
}

/// Whether a list of strings holds the given text.
fn holds_text(v: &Vec<String>, s: &str) -> (r: bool)
    ensures
        r == texts(v@).contains(s@),
{
    let mut i: usize = 0;
    while i < v.len()
        invariant
            i <= v.len(),
            forall|k: int| 0 <= k < i ==> #[trigger] v@[k]@ != s@,
        decreases v.len() - i,
    {
        if str_eq(v[i].as_str(), s) {
            assert(texts(v@)[i as int] == s@);
            return true;
        }
        i += 1;
    }
    proof {
        if texts(v@).contains(s@) {
            let k = choose|k: int| 0 <= k < texts(v@).len() && texts(v@)[k] == s@;
            assert(v@[k]@ == s@);
        }
    }
    false
}

/// The identifiers of the modules at the given positions, sorted, without repeats.
fn sorted_ids_at(modules: &Vec<ModuleAnalysis>, list: &Vec<usize>) -> (r: Vec<String>)
    requires
        forall|k: int| 0 <= k < list.len() ==> #[trigger] list@[k] < modules.len(),
    ensures
        strictly_sorted(texts(r@)),
        texts(r@).to_set() == ids_at(modules@, list@),
{
    let mut r: Vec<String> = Vec::new();
    let mut k: usize = 0;
    assert(texts(r@).to_set() =~= Set::<Seq<char>>::empty());
    while k < list.len()
        invariant
            k <= list.len(),
            forall|k: int| 0 <= k < list.len() ==> #[trigger] list@[k] < modules.len(),
            strictly_sorted(texts(r@)),
            texts(r@).to_set() == ids_at(modules@, list@.take(k as int)),
        decreases list.len() - k,
    {
        let id = modules[list[k]].id.clone();
        let ghost before = texts(r@).to_set();
        if !holds_text(&r, id.as_str()) {
            insert_sorted(&mut r, id);
        } else {
            assert(before.contains(id@));
        }
        proof {
            assert forall|w: Seq<char>| #[trigger] ids_at(modules@, list@.take(k + 1)).contains(w) <==> texts(r@).to_set().contains(w) by {
                if ids_at(modules@, list@.take(k + 1)).contains(w) {
                    let kk = choose|kk: int| 0 <= kk < k + 1 && #[trigger] modules@[list@.take(k + 1)[kk] as int].id@ == w;
                    if kk < k {
                        assert(list@.take(k as int)[kk] == list@.take(k + 1)[kk]);
                        assert(ids_at(modules@, list@.take(k as int)).contains(w));
                    }
                }
                if texts(r@).to_set().contains(w) && w != id@ {
                    assert(before.contains(w));
                    let kk = choose|kk: int| 0 <= kk < k && #[trigger] modules@[list@.take(k as int)[kk] as int].id@ == w;
                    assert(list@.take(k as int)[kk] == list@.take(k + 1)[kk]);
                }
                if w == id@ {
                    assert(list@.take(k + 1)[k as int] == list@[k as int]);
                    assert(modules@[list@.take(k + 1)[k as int] as int].id@ == w);
                }
            }
            assert(ids_at(modules@, list@.take(k + 1)) =~= texts(r@).to_set());
        }
        k += 1;
    }
    assert(list@.take(list.len() as int) =~= list@);
    r
}

/// With distinct identifiers, each identifier denotes the position that carries it.
proof fn lemma_distinct_index(ms: Seq<ModuleAnalysis>, i: int)
    requires
        distinct_ids(ms),
        0 <= i < ms.len(),
    ensures
        id_index(ms).contains_key(ms[i].id@),
        id_index(ms)[ms[i].id@] == i,
{
    lemma_id_index(ms, ms[i].id@);
    let x = id_index(ms)[ms[i].id@];
    if x != i {
        assert(ms[x].id@ == ms[i].id@);
    }
}

/// The edge positions of a module's neighbours name exactly its edge partners.
proof fn lemma_neighbours(ms: Seq<ModuleAnalysis>, es: Seq<DependencyEdge>, i: int, out: Seq<usize>, inc: Seq<usize>)
    requires
        distinct_ids(ms),
        edges_known(ms, es),
        0 <= i < ms.len(),
        ms.len() < usize::MAX,
        forall|t: usize| #[trigger] out.contains(t) <==> has_edge(links(ms, es), i as usize, t),
        forall|s: usize| #[trigger] inc.contains(s) <==> has_edge(links(ms, es), s, i as usize),
        forall|k: int| 0 <= k < out.len() ==> #[trigger] out[k] < ms.len(),
        forall|k: int| 0 <= k < inc.len() ==> #[trigger] inc[k] < ms.len(),
    ensures
        ids_at(ms, out) == targets_of(es, ms[i].id@),
        ids_at(ms, inc) == sources_of(es, ms[i].id@),
{
    let g = links(ms, es);
    lemma_distinct_index(ms, i);
    assert forall|w: Seq<char>| #[trigger] ids_at(ms, out).contains(w) <==> targets_of(es, ms[i].id@).contains(w) by {
        if ids_at(ms, out).contains(w) {
            let k = choose|k: int| 0 <= k < out.len() && #[trigger] ms[out[k] as int].id@ == w;
            assert(out.contains(out[k]));
            let j = choose|j: int| 0 <= j < g.len() && #[trigger] g[j] == (i as usize, out[k]);
            let e = es[j];
            assert(g[j] == (id_index(ms)[e.source@] as usize, id_index(ms)[e.target@] as usize));
            lemma_id_index(ms, e.source@);
            lemma_id_index(ms, e.target@);
            assert(e.source@ == ms[i].id@);
            assert(e.target@ == w);
        }
        if targets_of(es, ms[i].id@).contains(w) {
            let k = choose|k: int| 0 <= k < es.len() && #[trigger] es[k].source@ == ms[i].id@ && es[k].target@ == w;
            lemma_id_index(ms, es[k].target@);
            let t = id_index(ms)[w] as usize;
            assert(g[k] == (i as usize, t));
            assert(has_edge(g, i as usize, t));
            assert(out.contains(t));
            let kk = choose|kk: int| 0 <= kk < out.len() && out[kk] == t;
            assert(ms[out[kk] as int].id@ == w);
        }
    }
    assert(ids_at(ms, out) =~= targets_of(es, ms[i].id@));
    assert forall|w: Seq<char>| #[trigger] ids_at(ms, inc).contains(w) <==> sources_of(es, ms[i].id@).contains(w) by {
        if ids_at(ms, inc).contains(w) {
            let k = choose|k: int| 0 <= k < inc.len() && #[trigger] ms[inc[k] as int].id@ == w;
            assert(inc.contains(inc[k]));
            let j = choose|j: int| 0 <= j < g.len() && #[trigger] g[j] == (inc[k], i as usize);
            let e = es[j];
            assert(g[j] == (id_index(ms)[e.source@] as usize, id_index(ms)[e.target@] as usize));
            lemma_id_index(ms, e.source@);
            lemma_id_index(ms, e.target@);
            assert(e.target@ == ms[i].id@);
            assert(e.source@ == w);
        }
        if sources_of(es, ms[i].id@).contains(w) {
            let k = choose|k: int| 0 <= k < es.len() && #[trigger] es[k].target@ == ms[i].id@ && es[k].source@ == w;
            lemma_id_index(ms, es[k].source@);
            let s = id_index(ms)[w] as usize;
            assert(g[k] == (s, i as usize));
            assert(has_edge(g, s, i as usize));
            assert(inc.contains(s));
            let kk = choose|kk: int| 0 <= kk < inc.len() && inc[kk] == s;
            assert(ms[inc[kk] as int].id@ == w);
        }
    }
    assert(ids_at(ms, inc) =~= sources_of(es, ms[i].id@));
}

proof fn lemma_same_ids(a: Seq<ModuleAnalysis>, b: Seq<ModuleAnalysis>, list: Seq<usize>)
    requires
        a.len() == b.len(),
        forall|k: int| 0 <= k < a.len() ==> (#[trigger] a[k]).id == b[k].id,
        forall|k: int| 0 <= k < list.len() ==> #[trigger] list[k] < a.len(),
    ensures
        ids_at(a, list) == ids_at(b, list),
{
    assert forall|w: Seq<char>| #[trigger] ids_at(a, list).contains(w) <==> ids_at(b, list).contains(w) by {
        if ids_at(a, list).contains(w) {
            let k = choose|k: int| 0 <= k < list.len() && #[trigger] a[list[k] as int].id@ == w;
            assert(a[list[k] as int].id == b[list[k] as int].id);
        }
        if ids_at(b, list).contains(w) {
            let k = choose|k: int| 0 <= k < list.len() && #[trigger] b[list[k] as int].id@ == w;
            assert(a[list[k] as int].id == b[list[k] as int].id);
            assert(a[list[k] as int].id@ == w);
        }
    }
    assert(ids_at(a, list) =~= ids_at(b, list));
}

/// How many modules are named critical.
pub const MAX_CRITICAL: usize = 12;

/// `a` is more critical than `b`: a larger blast radius, then more importers,
/// then the smaller identifier.
pub open spec fn ranks_before(a: ModuleAnalysis, b: ModuleAnalysis) -> bool {
    ||| a.blast_radius > b.blast_radius
    ||| (a.blast_radius == b.blast_radius && a.fan_in > b.fan_in)
    ||| (a.blast_radius == b.blast_radius && a.fan_in == b.fan_in && seq_lt(a.id@, b.id@))
}

/// `crit` names, most critical first, the `min(12, n)` most critical modules.
pub open spec fn critical_spec(ms: Seq<ModuleAnalysis>, crit: Seq<Seq<char>>) -> bool {
    let pos = |w: Seq<char>| id_index(ms)[w];
    &&& crit.len() == if ms.len() < MAX_CRITICAL {
        ms.len()
    } else {
        MAX_CRITICAL as nat
    }
    &&& forall|k: int| 0 <= k < crit.len() ==> id_index(ms).contains_key(#[trigger] crit[k])
    &&& forall|k: int, l: int|
        0 <= k < l < crit.len() ==> ranks_before(ms[pos(#[trigger] crit[k])], ms[pos(#[trigger] crit[l])])
    &&& forall|x: int, k: int|
        0 <= x < ms.len() && 0 <= k < crit.len() && !crit.contains(#[trigger] ms[x].id@) ==> ranks_before(
            ms[pos(#[trigger] crit[k])],
            ms[x],
        )
}

proof fn lemma_rank_order(a: ModuleAnalysis, b: ModuleAnalysis, c: ModuleAnalysis)
    ensures
        !ranks_before(a, a),
        ranks_before(a, b) && ranks_before(b, c) ==> ranks_before(a, c),
        ranks_before(a, b) ==> !ranks_before(b, a),
        a.id@ != b.id@ ==> ranks_before(a, b) || ranks_before(b, a),
{
    lemma_lt_irreflexive(a.id@);
    if ranks_before(a, b) && ranks_before(b, c) && seq_lt(a.id@, b.id@) && seq_lt(b.id@, c.id@) {
        lemma_lt_transitive(a.id@, b.id@, c.id@);
    }
    if seq_lt(a.id@, b.id@) {
        lemma_lt_asymmetric(a.id@, b.id@);
    }
    if a.id@ != b.id@ {
        lemma_lt_total(a.id@, b.id@);
    }
}

/// Whether `a` is more critical than `b`.
fn rank_before(a: &ModuleAnalysis, b: &ModuleAnalysis) -> (r: bool)
    ensures
        r == ranks_before(*a, *b),
{
    if a.blast_radius != b.blast_radius {
        a.blast_radius > b.blast_radius
    } else if a.fan_in != b.fan_in {
        a.fan_in > b.fan_in
    } else {
        str_lt(a.id.as_str(), b.id.as_str())
    }
}

/// `top` lists, most critical first, the `min(12, k)` most critical of the first `k` modules.
pub open spec fn top_of(ms: Seq<ModuleAnalysis>, k: int, top: Seq<usize>) -> bool {
    &&& top.len() == if k < MAX_CRITICAL {
        k
    } else {
        MAX_CRITICAL as int
    }
    &&& forall|a: int| 0 <= a < top.len() ==> #[trigger] top[a] < k
    &&& forall|a: int, b: int| 0 <= a < b < top.len() ==> ranks_before(ms[#[trigger] top[a] as int], ms[#[trigger] top[b] as int])
    &&& forall|x: int, a: int|
        0 <= x < k && 0 <= a < top.len() && !top.contains(x as usize) ==> ranks_before(ms[#[trigger] top[a] as int], #[trigger] ms[x])
    &&& k <= MAX_CRITICAL ==> forall|x: usize| x < k ==> #[trigger] top.contains(x)
}

/// The positions of the most critical modules, most critical first.
fn top_positions(modules: &Vec<ModuleAnalysis>) -> (r: Vec<usize>)
    requires
        distinct_ids(modules@),
    ensures
        top_of(modules@, modules.len() as int, r@),
{
    let ghost ms = modules@;
    let mut top: Vec<usize> = Vec::new();
    let mut i: usize = 0;
    while i < modules.len()
        invariant
            i <= modules.len(),
            ms == modules@,
            distinct_ids(ms),
            top_of(ms, i as int, top@),
        decreases modules.len() - i,
    {
        let mut p: usize = 0;
        while p < top.len() && rank_before(&modules[top[p]], &modules[i])
            invariant
                p <= top.len(),
                i < modules.len(),
                ms == modules@,
                top_of(ms, i as int, top@),
                forall|a: int| 0 <= a < p ==> ranks_before(ms[#[trigger] top@[a] as int], ms[i as int]),
            decreases top.len() - p,
        {
            p += 1;
        }
        proof {
            assert(!top@.contains(i));
            assert forall|a: int| p <= a < top@.len() implies ranks_before(ms[i as int], ms[#[trigger] top@[a] as int]) by {
                let q = top@[p as int];
                assert(q != i);
                lemma_rank_order(ms[q as int], ms[i as int], ms[i as int]);
                assert(ms[q as int].id@ != ms[i as int].id@);
                lemma_rank_order(ms[i as int], ms[q as int], ms[top@[a] as int]);
            }
        }
        if p < MAX_CRITICAL {
            let ghost old_top = top@;
            top.insert(p, i);
            proof {
                assert(top@ == old_top.insert(p as int, i));
            }
            if top.len() > MAX_CRITICAL {
                let ghost full = top@;
                top.pop();
                proof {
                    assert(top@ == full.drop_last());
                    let gone = full[full.len() - 1];
                    assert(old_top.len() == MAX_CRITICAL);
                    assert(gone == old_top[old_top.len() - 1]);
                    assert forall|a: int| 0 <= a < top@.len() implies ranks_before(ms[#[trigger] top@[a] as int], ms[gone as int]) by {
                        if a < p {
                            assert(top@[a] == old_top[a]);
                            assert(ranks_before(ms[old_top[a] as int], ms[old_top[old_top.len() - 1] as int]));
                        } else if a == p {
                            assert(top@[a] == i);
                        } else {
                            assert(top@[a] == old_top[a - 1]);
                            assert(ranks_before(ms[old_top[a - 1] as int], ms[old_top[old_top.len() - 1] as int]));
                        }
                    }
                    assert forall|x: int, a: int|
                        0 <= x < i + 1 && 0 <= a < top@.len() && !top@.contains(x as usize) implies ranks_before(
                            ms[#[trigger] top@[a] as int],
                            #[trigger] ms[x],
                        ) by {
                        if x as usize == gone {
                            assert(x == gone as int);
                            assert(ranks_before(ms[top@[a] as int], ms[gone as int]));
                        } else if x == i {
                            assert(top@[p as int] == i);
                            assert(top@.contains(i));
                            assert(x as usize == i);
                            assert(false);
                        } else {
                            assert(x < i);
                            assert(!old_top.contains(x as usize)) by {
                                if old_top.contains(x as usize) {
                                    let b = choose|b: int| 0 <= b < old_top.len() && old_top[b] == x as usize;
                                    if b < p {
                                        assert(top@[b] == x as usize);
                                    } else if b + 1 < top@.len() {
                                        assert(top@[b + 1] == x as usize);
                                    } else {
                                        assert(b == old_top.len() - 1);
                                    }
                                }
                            }
                            if a < p {
                                assert(top@[a] == old_top[a]);
                                assert(ranks_before(ms[old_top[a] as int], ms[x]));
                                assert(ranks_before(ms[top@[a] as int], ms[x]));
                            } else if a == p {
                                let last = old_top[old_top.len() - 1];
                                assert(ranks_before(ms[last as int], ms[x]));
                                assert(ranks_before(ms[i as int], ms[last as int]));
                                lemma_rank_order(ms[i as int], ms[last as int], ms[x]);
                                assert(ranks_before(ms[top@[a] as int], ms[x]));
                            } else {
                                assert(top@[a] == old_top[a - 1]);
                                assert(ranks_before(ms[old_top[a - 1] as int], ms[x]));
                                assert(ranks_before(ms[top@[a] as int], ms[x]));
                            }
                        }
                    }
                }
            } else {
                proof {
                    assert forall|x: int, a: int|
                        0 <= x < i + 1 && 0 <= a < top@.len() && !top@.contains(x as usize) implies ranks_before(
                            ms[#[trigger] top@[a] as int],
                            #[trigger] ms[x],
                        ) by {
                        if x == i {
                            assert(top@[p as int] == i);
                        } else {
                            assert(old_top.len() < MAX_CRITICAL);
                            assert(old_top.len() == i);
                            assert(old_top.contains(x as usize));
                            let b = choose|b: int| 0 <= b < old_top.len() && old_top[b] == x as usize;
                            if b < p {
                                assert(top@[b] == x as usize);
                            } else {
                                assert(top@[b + 1] == x as usize);
                            }
                        }
                    }
                    assert forall|x: usize| x < i + 1 implies #[trigger] top@.contains(x) by {
                        if x == i {
                            assert(top@[p as int] == i);
                        } else {
                            assert(old_top.contains(x));
                            let b = choose|b: int| 0 <= b < old_top.len() && old_top[b] == x;
                            if b < p {
                                assert(top@[b] == x);
                            } else {
                                assert(top@[b + 1] == x);
                            }
                        }
                    }
                }
            }
        } else {
            proof {
                assert forall|x: int, a: int|
                    0 <= x < i + 1 && 0 <= a < top@.len() && !top@.contains(x as usize) implies ranks_before(
                        ms[#[trigger] top@[a] as int],
                        #[trigger] ms[x],
                    ) by {
                    if x == i {
                        assert(a < p);
                    }
                }
            }
        }
        i += 1;
    }
    top
}

/// The identifiers of the most critical modules, most critical first.
fn critical_ids(modules: &Vec<ModuleAnalysis>) -> (r: Vec<String>)
    requires
        distinct_ids(modules@),
        modules.len() < usize::MAX,
    ensures
        critical_spec(modules@, texts(r@)),
{
    let ghost ms = modules@;
    let top = top_positions(modules);
    let mut r: Vec<String> = Vec::new();
    let mut k: usize = 0;
    while k < top.len()
        invariant
            k <= top.len(),
            ms == modules@,
            top_of(ms, ms.len() as int, top@),
            r.len() == k,
            forall|a: int| 0 <= a < k ==> (#[trigger] r@[a])@ == ms[top@[a] as int].id@,
        decreases top.len() - k,
    {
        r.push(modules[top[k]].id.clone());
        k += 1;
    }
    proof {
        let t = texts(r@);
        assert forall|a: int| 0 <= a < t.len() implies id_index(ms).contains_key(#[trigger] t[a]) && id_index(ms)[t[a]] == top@[a] by {
            assert(t[a] == r@[a]@);
            lemma_distinct_index(ms, top@[a] as int);
        }
        assert forall|x: int| 0 <= x < ms.len() && #[trigger] t.contains(ms[x].id@) implies top@.contains(x as usize) by {
            let a = choose|a: int| 0 <= a < t.len() && t[a] == ms[x].id@;
            assert(t[a] == r@[a]@);
            if top@[a] != x as usize {
                assert(ms[top@[a] as int].id@ == ms[x].id@);
            }
        }
        assert forall|x: int, a: int|
            0 <= x < ms.len() && 0 <= a < t.len() && !t.contains(#[trigger] ms[x].id@) implies ranks_before(
                ms[id_index(ms)[#[trigger] t[a]]],
                ms[x],
            ) by {
            if top@.contains(x as usize) {
                let b = choose|b: int| 0 <= b < top@.len() && top@[b] == x as usize;
                assert(t[b] == r@[b]@);
                assert(t.contains(ms[x].id@));
            }
        }
        assert forall|a: int, b: int|
            0 <= a < b < t.len() implies ranks_before(ms[id_index(ms)[#[trigger] t[a]]], ms[id_index(ms)[#[trigger] t[b]]]) by {
        }
    }
    r
}

/// The module positions of every edge.
fn edge_positions(modules: &Vec<ModuleAnalysis>, edges: &Vec<DependencyEdge>) -> (r: Vec<(usize, usize)>)
    requires
        edges_known(modules@, edges@),
    ensures
        r@ == links(modules@, edges@),
        edges_within(r@, modules.len() as nat),
{
    let ghost ms = modules@;
    let slice = modules.as_slice();
    assert(slice@ == ms);
    let ids = index_by_id(slice);
    let mut r: Vec<(usize, usize)> = Vec::new();
    let mut k: usize = 0;
    while k < edges.len()
        invariant
            k <= edges.len(),
            ms == modules@,
            edges_known(ms, edges@),
            forall|w: Seq<char>| #[trigger] ids@.contains_key(w) <==> id_index(ms).contains_key(w),
            forall|w: Seq<char>| ids@.contains_key(w) ==> ids@[w] as int == #[trigger] id_index(ms)[w],
            r@ == links(ms, edges@).take(k as int),
            edges_within(r@, ms.len()),
        decreases edges.len() - k,
    {
        let e = &edges[k];
        assert(id_index(ms).contains_key(edges@[k as int].source@));
        assert(id_index(ms).contains_key(edges@[k as int].target@));
        proof {
            lemma_id_index(ms, e.source@);
            lemma_id_index(ms, e.target@);
        }
        let a = match ids.get(e.source.as_str()) {
            Some(v) => *v,
            None => {
                proof {
                    assert(false);
                }
                0
            },
        };
        let b = match ids.get(e.target.as_str()) {
            Some(v) => *v,
            None => {
                proof {
                    assert(false);
                }
                0
            },
        };
        r.push((a, b));
        proof {
            assert(r@ =~= links(ms, edges@).take(k + 1));
            assert forall|j: int| 0 <= j < r@.len() implies (#[trigger] r@[j]).0 < ms.len() && r@[j].1 < ms.len() by {
                if j == k {
                } else {
                    assert(r@[j] == links(ms, edges@).take(k as int)[j]);
                }
            }
        }
        k += 1;
    }
    assert(links(ms, edges@).take(edges.len() as int) =~= links(ms, edges@));
    r
}

/// Sets the neighbours, depth, blast radius and cycle of every module from
/// the edges, and gives the number of cycles and the most critical modules.
pub fn calculate(modules: &mut Vec<ModuleAnalysis>, edges: &Vec<DependencyEdge>) -> (r: GraphMetrics)
    requires
        old(modules).len() < 0xffff_ffff,
        edges.len() < 0xffff_ffff,
        distinct_ids(old(modules)@),
        edges_known(old(modules)@, edges@),
        distinct_links(edges@),
    ensures
        final(modules).len() == old(modules).len(),
        forall|i: int| 0 <= i < old(modules).len() ==> module_metrics(old(modules)@, edges@, i, #[trigger] final(modules)@[i]),
        cycle_numbering(
            links(old(modules)@, edges@),
            old(modules).len() as nat,
            final(modules)@.map_values(|m: ModuleAnalysis| cycle_number(m)),
            r.cycles as nat,
        ),
        critical_spec(final(modules)@, texts(r.critical@)),
{
    let ghost ms = modules@;
    let n = modules.len();
    let pairs = edge_positions(modules, edges);
    let ghost g = pairs@;
    let shape = shape_of(n, &pairs);
    let mut i: usize = 0;
    while i < n
        invariant
            i <= n,
            n == ms.len(),
            n < 0xffff_ffff,
            modules.len() == n,
            g == links(ms, edges@),
            edges_within(g, n as nat),
            distinct_ids(ms),
            edges_known(ms, edges@),
            shape_spec(n as nat, g, shape),
            forall|k: int| 0 <= k < n ==> (#[trigger] modules@[k]).id == ms[k].id,
            forall|k: int| i <= k < n ==> #[trigger] modules@[k] == ms[k],
            forall|k: int| 0 <= k < i ==> module_metrics(ms, edges@, k, #[trigger] modules@[k]),
            forall|k: int| 0 <= k < i ==> cycle_number(#[trigger] modules@[k]) == shape.cycle@[k],
        decreases n - i,
    {
        let ghost adj = shape.forward@.map_values(|v: Vec<usize>| v@);
        let ghost back = shape.backward@.map_values(|v: Vec<usize>| v@);
        let out = &shape.forward[i];
        let inc = &shape.backward[i];
        proof {
            assert(adj[i as int] == out@);
            assert(back[i as int] == inc@);
            assert forall|t: usize| #[trigger] out@.contains(t) <==> has_edge(g, i, t) by {
                if has_edge(g, i, t) {
                    let j = choose|j: int| 0 <= j < g.len() && #[trigger] g[j] == (i, t);
                    assert(adj[g[j].0 as int].contains(g[j].1));
                }
            }
            assert forall|x: usize| #[trigger] inc@.contains(x) <==> has_edge(g, x, i) by {
                if inc@.contains(x) {
                    assert(has_edge(reversed(g), i, x));
                    let j = choose|j: int| 0 <= j < reversed(g).len() && #[trigger] reversed(g)[j] == (i, x);
                    assert(g[j] == (x, i));
                }
                if has_edge(g, x, i) {
                    let j = choose|j: int| 0 <= j < g.len() && #[trigger] g[j] == (x, i);
                    assert(reversed(g)[j] == (i, x));
                    assert(back[reversed(g)[j].0 as int].contains(reversed(g)[j].1));
                }
            }
            assert forall|k: int| 0 <= k < out@.len() implies #[trigger] out@[k] < n by {
                assert(out@.contains(out@[k]));
                let j = choose|j: int| 0 <= j < g.len() && #[trigger] g[j] == (i, out@[k]);
            }
            assert forall|k: int| 0 <= k < inc@.len() implies #[trigger] inc@[k] < n by {
                assert(inc@.contains(inc@[k]));
                let j = choose|j: int| 0 <= j < g.len() && #[trigger] g[j] == (inc@[k], i);
            }
            lemma_neighbours(ms, edges@, i as int, out@, inc@);
        }
        let imports = sorted_ids_at(modules, out);
        let imported_by = sorted_ids_at(modules, inc);
        proof {
            lemma_same_ids(modules@, ms, out@);
            lemma_same_ids(modules@, ms, inc@);
            let reach = reaching(g, n as nat, i);
            vstd::set_lib::lemma_int_range(0, n as int);
            vstd::set_lib::lemma_len_subset(reach, vstd::set_lib::set_int_range(0, n as int));
            crate::graph::lemma_reaches_refl(g, i);
            assert(reach.contains(i as int));
            assert(reach.len() > 0);
        }
        let reached = shape.reached_from[i];
        let depth = shape.depth[i];
        let number = shape.cycle[i];
        let fan_out = imports.len();
        let fan_in = imported_by.len();
        let ghost before = modules@;
        modules[i].imports = imports;
        modules[i].imported_by = imported_by;
        modules[i].fan_out = fan_out;
        modules[i].fan_in = fan_in;
        modules[i].is_entry_like = fan_in == 0;
        modules[i].dependency_depth = depth;
        modules[i].blast_radius = reached - 1;
        modules[i].cycle_id = if number > 0 {
            Some(number)
        } else {
            None
        };
        proof {
            assert forall|k: int| 0 <= k < n && k != i implies #[trigger] modules@[k] == before[k] by {}
            assert(module_metrics(ms, edges@, i as int, modules@[i as int]));
        }
        i += 1;
    }
    proof {
        let nums = modules@.map_values(|m: ModuleAnalysis| cycle_number(m));
        assert(nums =~= shape.cycle@);
        assert forall|a: int, b: int| 0 <= a < n && 0 <= b < n && a != b implies #[trigger] modules@[a].id@ != #[trigger] modules@[b].id@ by {
            assert(modules@[a].id == ms[a].id);
            assert(modules@[b].id == ms[b].id);
        }
    }
    let critical = critical_ids(modules);
    GraphMetrics { cycles: shape.cycles, critical }
}

pub proof fn lemma_same_index(a: Seq<ModuleAnalysis>, b: Seq<ModuleAnalysis>)
    requires
        a.len() == b.len(),
        forall|k: int| 0 <= k < a.len() ==> (#[trigger] a[k]).id == b[k].id,
    ensures
        id_index(a) == id_index(b),
    decreases a.len(),
{
    if a.len() > 0 {
        lemma_same_index(a.drop_last(), b.drop_last());
        assert(a.last().id == b.last().id);
    }
}

/// Every module reached by the impact of `i` reaches `i` along the edges.
proof fn lemma_impact_reach_sound(
    ms: Seq<ModuleAnalysis>,
    es: Seq<DependencyEdge>,
    out: Seq<ModuleAnalysis>,
    i: int,
    k: nat,
)
    requires
        distinct_ids(ms),
        edges_known(ms, es),
        ms.len() < usize::MAX,
        0 <= i < ms.len(),
        out.len() == ms.len(),
        forall|x: int| 0 <= x < ms.len() ==> module_metrics(ms, es, x, #[trigger] out[x]),
    ensures
        forall|v: int| #[trigger] reach(out, Set::empty(), i, k).contains(v) ==> 0 <= v < ms.len() && reaches(links(ms, es), v as usize, i as usize),
    decreases k,
{
    let g = links(ms, es);
    lemma_same_index(out, ms);
    if k == 0 {
        crate::graph::lemma_reaches_refl(g, i as usize);
    } else {
        lemma_impact_reach_sound(ms, es, out, i, (k - 1) as nat);
        let prev = reach(out, Set::empty(), i, (k - 1) as nat);
        assert forall|v: int| #[trigger] reach(out, Set::empty(), i, k).contains(v) implies 0 <= v < ms.len() && reaches(g, v as usize, i as usize) by {
            if !prev.contains(v) {
                let u = choose|u: int| prev.contains(u) && #[trigger] step(out, Set::empty(), u, v);
                let jj = choose|jj: int|
                    0 <= jj < out[u].imported_by@.len() && edge_to(out, Set::empty(), #[trigger] out[u].imported_by@[jj]@, v);
                let w = out[u].imported_by@[jj]@;
                assert(module_metrics(ms, es, u, out[u]));
                assert(texts(out[u].imported_by@)[jj] == w);
                assert(sources_of(es, ms[u].id@).contains(w));
                let e = choose|e: int| 0 <= e < es.len() && #[trigger] es[e].target@ == ms[u].id@ && es[e].source@ == w;
                lemma_id_index(ms, w);
                lemma_distinct_index(ms, u);
                assert(g[e] == (id_index(ms)[es[e].source@] as usize, id_index(ms)[es[e].target@] as usize));
                assert(g[e] == (v as usize, u as usize));
                lemma_reaches_edge(g, e);
                lemma_reaches_trans(g, v as usize, u as usize, i as usize);
            }
        }
    }
}

/// Every module that reaches `i` along the edges is reached by the impact of `i`.
proof fn lemma_impact_reach_complete(
    ms: Seq<ModuleAnalysis>,
    es: Seq<DependencyEdge>,
    out: Seq<ModuleAnalysis>,
    i: int,
    v: usize,
    k: nat,
)
    requires
        distinct_ids(ms),
        edges_known(ms, es),
        ms.len() < usize::MAX,
        0 <= i < ms.len(),
        v < ms.len(),
        out.len() == ms.len(),
        forall|x: int| 0 <= x < ms.len() ==> module_metrics(ms, es, x, #[trigger] out[x]),
        walk(links(ms, es), v, i as usize, k),
    ensures
        reachable(out, Set::empty(), i, v as int),
    decreases k,
{
    let g = links(ms, es);
    lemma_same_index(out, ms);
    if v == i as usize {
        assert(reach(out, Set::empty(), i, 0).contains(v as int));
    } else {
        let j = choose|j: int| 0 <= j < g.len() && #[trigger] g[j].0 == v && walk(g, g[j].1, i as usize, (k - 1) as nat);
        let w = g[j].1;
        let e = es[j];
        assert(g[j] == (id_index(ms)[e.source@] as usize, id_index(ms)[e.target@] as usize));
        lemma_id_index(ms, e.source@);
        lemma_id_index(ms, e.target@);
        lemma_impact_reach_complete(ms, es, out, i, w, (k - 1) as nat);
        let m = choose|m: nat| #[trigger] reach(out, Set::empty(), i, m).contains(w as int);
        assert(module_metrics(ms, es, w as int, out[w as int]));
        assert(e.target@ == ms[w as int].id@);
        assert(sources_of(es, ms[w as int].id@).contains(e.source@));
        assert(texts(out[w as int].imported_by@).to_set().contains(e.source@));
        let jj = choose|jj: int| 0 <= jj < texts(out[w as int].imported_by@).len() && texts(out[w as int].imported_by@)[jj] == e.source@;
        assert(out[w as int].imported_by@[jj]@ == e.source@);
        lemma_distinct_index(ms, v as int);
        assert(edge_to(out, Set::empty(), out[w as int].imported_by@[jj]@, v as int));
        assert(step(out, Set::empty(), w as int, v as int));
        assert(reach(out, Set::empty(), i, m + 1).contains(v as int));
    }
}

/// Law: the blast radius of a module is the number of modules that the impact
/// of its removal reaches when nothing is disconnected yet, and that impact succeeds.
pub proof fn law_blast_radius_is_impact(
    ms: Seq<ModuleAnalysis>,
    es: Seq<DependencyEdge>,
    out: Seq<ModuleAnalysis>,
    i: int,
    r: Result<ImpactResult, ImpactError>,
)
    requires
        distinct_ids(ms),
        edges_known(ms, es),
        ms.len() < usize::MAX,
        0 <= i < ms.len(),
        out.len() == ms.len(),
        forall|x: int| 0 <= x < ms.len() ==> module_metrics(ms, es, x, #[trigger] out[x]),
        impact_spec(out, ms[i].id@, Set::empty(), r),
    ensures
        r matches Ok(res) && res.total_affected == out[i].blast_radius,
{
    let g = links(ms, es);
    let n = ms.len();
    lemma_same_index(out, ms);
    lemma_distinct_index(ms, i);
    assert(id_index(out).contains_key(ms[i].id@));
    assert(id_index(out)[ms[i].id@] == i);
    assert(!Set::<Seq<char>>::empty().contains(ms[i].id@));
    assert forall|u: int| reachable(out, Set::empty(), i, u) implies !#[trigger] crate::impact::dangling(out, Set::empty(), u) by {
        let m = choose|m: nat| #[trigger] reach(out, Set::empty(), i, m).contains(u);
        lemma_impact_reach_sound(ms, es, out, i, m);
        if crate::impact::dangling(out, Set::empty(), u) {
            let jj = choose|jj: int| 0 <= jj < out[u].imported_by@.len() && !Set::<Seq<char>>::empty().contains(#[trigger] out[u].imported_by@[jj]@)
                && !id_index(out).contains_key(out[u].imported_by@[jj]@);
            let w = out[u].imported_by@[jj]@;
            assert(module_metrics(ms, es, u, out[u]));
            assert(texts(out[u].imported_by@)[jj] == w);
            assert(sources_of(es, ms[u].id@).contains(w));
            let e = choose|e: int| 0 <= e < es.len() && #[trigger] es[e].target@ == ms[u].id@ && es[e].source@ == w;
            assert(id_index(ms).contains_key(es[e].source@));
        }
    }
    let res = r->Ok_0;
    let depth = (res.waves@.len() - 1) as nat;
    let final_set = reach(out, Set::empty(), i, depth);
    assert forall|v: int| #[trigger] final_set.contains(v) <==> reaching(g, n, i as usize).contains(v) by {
        if final_set.contains(v) {
            lemma_impact_reach_sound(ms, es, out, i, depth);
        }
        if reaching(g, n, i as usize).contains(v) {
            let k = choose|k: nat| #[trigger] walk(g, v as usize, i as usize, k);
            lemma_impact_reach_complete(ms, es, out, i, v as usize, k);
        }
    }
    assert(final_set =~= reaching(g, n, i as usize));
    assert(module_metrics(ms, es, i, out[i]));
}

} // verus!
