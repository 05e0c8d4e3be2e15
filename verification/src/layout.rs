//! Which modules the dependency view shows and in which columns: every
//! module by dependency depth, the neighbours of one module, or the waves of
//! an impact trace. Only real dependency edges between shown modules are
//! drawn; the drawing itself (positions, crossing reduction) is left to the
//! caller.
use vstd::prelude::*;
use crate::idset::IdSet;
use crate::model::{DependencyEdge, ModuleAnalysis};
use crate::order::{strictly_sorted, texts};
use crate::text_util::{owned, seq_lt, str_eq};

verus! {

/// At most this many modules are shown at once.
pub const MAX_VISIBLE: usize = 250;

/// What the view centres on.
#[derive(Clone, Copy, Debug, PartialEq, Eq, Structural)]
pub enum GraphView {
    All,
    Nearby,
    Impact,
}

/// The identifiers of the waves of an impact trace.
pub open spec fn wave_views(waves: Seq<Vec<String>>) -> Seq<Seq<Seq<char>>> {
    waves.map_values(|w: Vec<String>| texts(w@))
}

/// The last wave that lists `id`.
pub open spec fn last_wave(waves: Seq<Seq<Seq<char>>>, id: Seq<char>) -> Option<int>
    decreases waves.len(),
{
    if waves.len() == 0 {
        None
    } else if waves.last().contains(id) {
        Some(waves.len() - 1)
    } else {
        last_wave(waves.drop_last(), id)
    }
}

proof fn lemma_last_wave(waves: Seq<Seq<Seq<char>>>, id: Seq<char>)
    ensures
        last_wave(waves, id) matches Some(w) ==> 0 <= w < waves.len() && waves[w].contains(id) && forall|v: int|
            w < v < waves.len() ==> !(#[trigger] waves[v]).contains(id),
        last_wave(waves, id) is None ==> forall|v: int| 0 <= v < waves.len() ==> !(#[trigger] waves[v]).contains(id),
    decreases waves.len(),
{
    if waves.len() > 0 && !waves.last().contains(id) {
        lemma_last_wave(waves.drop_last(), id);
        assert forall|v: int| 0 <= v < waves.len() - 1 implies (#[trigger] waves[v]) == waves.drop_last()[v] by {}
    }
}

/// The identifiers listed in some wave.
pub open spec fn traced(waves: Seq<Seq<Seq<char>>>) -> Set<Seq<char>> {
    Set::new(|id: Seq<char>| last_wave(waves, id) is Some)
}

/// `a` comes before `b` in wave order, then in text order.
pub open spec fn wave_before(waves: Seq<Seq<Seq<char>>>, a: Seq<char>, b: Seq<char>) -> bool {
    &&& last_wave(waves, a) is Some
    &&& last_wave(waves, b) is Some
    &&& (last_wave(waves, a).unwrap() < last_wave(waves, b).unwrap() || (last_wave(waves, a).unwrap()
        == last_wave(waves, b).unwrap() && seq_lt(a, b)))
}

/// `id` is traced in a wave before `w`.
pub open spec fn traced_before(waves: Seq<Seq<Seq<char>>>, id: Seq<char>, w: int) -> bool {
    last_wave(waves, id) is Some && last_wave(waves, id).unwrap() < w
}

/// Identifiers in strictly increasing wave-then-text order.
pub open spec fn wave_sorted(waves: Seq<Seq<Seq<char>>>, s: Seq<Seq<char>>) -> bool {
    forall|i: int, j: int| 0 <= i < j < s.len() ==> wave_before(waves, #[trigger] s[i], #[trigger] s[j])
}

/// The wave of `id` in the trace.
pub fn wave_of(waves: &Vec<Vec<String>>, id: &str) -> (r: Option<usize>)
    ensures
        match r {
            Some(w) => last_wave(wave_views(waves@), id@) == Some(w as int),
            None => last_wave(wave_views(waves@), id@) is None,
        },
{
    let ghost wv = wave_views(waves@);
    let mut w = waves.len();
    assert(wv.take(w as int) =~= wv);
    while w > 0
        invariant
            w <= waves.len(),
            wv == wave_views(waves@),
            last_wave(wv, id@) == last_wave(wv.take(w as int), id@),
        decreases w,
    {
        let list = &waves[w - 1];
        let ghost lv = texts(list@);
        assert(wv.take(w as int).last() == lv);
        assert(wv.take(w as int).drop_last() =~= wv.take(w - 1));
        let mut k: usize = 0;
        let mut found = false;
        while k < list.len() && !found
            invariant
                k <= list.len(),
                lv == texts(list@),
                found ==> lv.contains(id@),
                !found ==> forall|t: int| 0 <= t < k ==> lv[t] != id@,
            decreases list.len() - k, if found {
                0int
            } else {
                1int
            },
        {
            if str_eq(list[k].as_str(), id) {
                assert(lv[k as int] == id@);
                found = true;
            } else {
                k += 1;
            }
        }
        if found {
            return Some(w - 1);
        }
        w -= 1;
    }
    assert(wv.take(0) =~= Seq::<Seq<Seq<char>>>::empty());
    None
}

/// The modules' identifiers.
pub open spec fn module_ids(modules: Seq<ModuleAnalysis>) -> Set<Seq<char>> {
    Set::new(|id: Seq<char>| exists|i: int| 0 <= i < modules.len() && #[trigger] modules[i].id@ == id)
}

/// Candidates of the impact view: the traced modules, wave by wave, each wave
/// in text order.
pub fn impact_candidates(waves: &Vec<Vec<String>>) -> (r: Vec<String>)
    ensures
        wave_sorted(wave_views(waves@), texts(r@)),
        texts(r@).to_set() == traced(wave_views(waves@)),
{
    let ghost wv = wave_views(waves@);
    let mut r: Vec<String> = Vec::new();
    let mut w: usize = 0;
    assert(texts(r@).to_set() =~= Set::<Seq<char>>::empty());
    assert forall|id: Seq<char>| !traced_before(wv, id, 0) by {
        lemma_last_wave(wv, id);
    }
    while w < waves.len()
        invariant
            w <= waves.len(),
            wv == wave_views(waves@),
            wave_sorted(wv, texts(r@)),
            forall|k: int| 0 <= k < r@.len() ==> #[trigger] traced_before(wv, texts(r@)[k], w as int),
            forall|id: Seq<char>| texts(r@).to_set().contains(id) <==> traced_before(wv, id, w as int),
        decreases waves.len() - w,
    {
        let list = &waves[w];
        let ghost lv = texts(list@);
        assert(wv[w as int] == lv);
        let mut block = IdSet::new();
        let mut k: usize = 0;
        while k < list.len()
            invariant
                k <= list.len(),
                w < waves.len(),
                wv == wave_views(waves@),
                wv[w as int] == lv,
                lv == texts(list@),
                forall|id: Seq<char>| block@.contains(id) <==> (exists|t: int| 0 <= t < k && lv[t] == id)
                    && last_wave(wv, id) == Some(w as int),
            decreases list.len() - k,
        {
            let here = wave_of(waves, list[k].as_str());
            assert(lv[k as int] == list@[k as int]@);
            if here == Some(w) {
                block.insert(list[k].as_str());
            }
            k += 1;
        }
        let items = block.to_vec();
        let ghost before = texts(r@);
        let ghost added = texts(items@);
        proof {
            assert forall|id: Seq<char>| block@.contains(id) <==> last_wave(wv, id) == Some(w as int) by {
                if last_wave(wv, id) == Some(w as int) {
                    lemma_last_wave(wv, id);
                    let t = choose|t: int| 0 <= t < lv.len() && lv[t] == id;
                }
            }
        }
        let mut m: usize = 0;
        while m < items.len()
            invariant
                m <= items.len(),
                wv == wave_views(waves@),
                added == texts(items@),
                strictly_sorted(added),
                forall|id: Seq<char>| added.to_set().contains(id) <==> last_wave(wv, id) == Some(w as int),
                texts(r@) == before + added.take(m as int),
                wave_sorted(wv, before),
                wave_sorted(wv, texts(r@)),
                forall|k: int| 0 <= k < before.len() ==> #[trigger] traced_before(wv, before[k], w as int),
            decreases items.len() - m,
        {
            let ghost prev = texts(r@);
            r.push(owned(items[m].as_str()));
            assert(texts(r@) =~= prev.push(added[m as int]));
            assert(added.take(m + 1) =~= added.take(m as int).push(added[m as int]));
            assert(added.to_set().contains(added[m as int]));
            m += 1;
            proof {
                let s = texts(r@);
                assert(s =~= before + added.take(m as int));
                assert forall|i: int, j: int| 0 <= i < j < s.len() implies wave_before(wv, #[trigger] s[i], #[trigger] s[j]) by {
                    let bl = before.len() as int;
                    if j >= bl {
                        let b = j - bl;
                        assert(s[j] == added[b]);
                        assert(added.to_set().contains(added[b]));
                        assert(last_wave(wv, added[b]) == Some(w as int));
                        if i >= bl {
                            let a = i - bl;
                            assert(s[i] == added[a]);
                            assert(added.to_set().contains(added[a]));
                            assert(seq_lt(added[a], added[b]));
                        } else {
                            assert(s[i] == before[i]);
                            assert(traced_before(wv, before[i], w as int));
                        }
                    } else {
                        assert(s[i] == before[i] && s[j] == before[j]);
                        assert(wave_before(wv, before[i], before[j]));
                    }
                }
            }
        }
        assert(added.take(items.len() as int) =~= added);
        proof {
            let s = texts(r@);
            assert(s =~= before + added);
            assert forall|k: int| 0 <= k < s.len() implies #[trigger] traced_before(wv, s[k], w + 1) by {
                if k >= before.len() {
                    assert(s[k] == added[k - before.len()]);
                    assert(added.to_set().contains(added[k - before.len()]));
                } else {
                    assert(s[k] == before[k]);
                    assert(traced_before(wv, before[k], w as int));
                }
            }
            assert forall|id: Seq<char>| s.to_set().contains(id) <==> traced_before(wv, id, w + 1) by {
                if s.to_set().contains(id) {
                    let k = choose|k: int| 0 <= k < s.len() && s[k] == id;
                    if k >= before.len() {
                        assert(s[k] == added[k - before.len()]);
                    }
                }
                if traced_before(wv, id, w + 1) {
                    if traced_before(wv, id, w as int) {
                        assert(before.to_set().contains(id));
                        let k = choose|k: int| 0 <= k < before.len() && before[k] == id;
                        assert(s[k] == id);
                    } else {
                        assert(added.to_set().contains(id));
                        let k = choose|k: int| 0 <= k < added.len() && added[k] == id;
                        assert(s[before.len() + k] == id);
                    }
                }
            }
        }
        w += 1;
    }
    assert(wv.len() == waves.len());
    assert forall|id: Seq<char>| texts(r@).to_set().contains(id) <==> traced(wv).contains(id) by {
        lemma_last_wave(wv, id);
        assert(texts(r@).to_set().contains(id) <==> traced_before(wv, id, waves.len() as int));
    }
    assert(texts(r@).to_set() =~= traced(wv));
    r
}

/// The modules joined to `n` by an edge in either direction, `n` itself left
/// out.
pub open spec fn neighbours(edges: Seq<DependencyEdge>, n: Seq<char>) -> Set<Seq<char>> {
    Set::new(
        |id: Seq<char>|
            id != n && exists|k: int|
                0 <= k < edges.len() && ((#[trigger] edges[k]).source@ == n && edges[k].target@ == id
                    || edges[k].target@ == n && edges[k].source@ == id),
    )
}

/// Candidates of the neighbourhood view: the module, then its neighbours in
/// text order.
pub fn nearby_candidates(edges: &Vec<DependencyEdge>, n: &str) -> (r: Vec<String>)
    ensures
        texts(r@).len() >= 1,
        texts(r@)[0] == n@,
        strictly_sorted(texts(r@).drop_first()),
        texts(r@).drop_first().to_set() == neighbours(edges@, n@),
{
    let mut near = IdSet::new();
    let mut k: usize = 0;
    while k < edges.len()
        invariant
            k <= edges.len(),
            forall|id: Seq<char>| near@.contains(id) <==> (id != n@ && exists|t: int|
                0 <= t < k && ((#[trigger] edges@[t]).source@ == n@ && edges@[t].target@ == id
                    || edges@[t].target@ == n@ && edges@[t].source@ == id)),
        decreases edges.len() - k,
    {
        let e = &edges[k];
        let ghost old_near = near@;
        if str_eq(e.source.as_str(), n) && !str_eq(e.target.as_str(), n) {
            near.insert(e.target.as_str());
        }
        if str_eq(e.target.as_str(), n) && !str_eq(e.source.as_str(), n) {
            near.insert(e.source.as_str());
        }
        proof {
            assert forall|id: Seq<char>| near@.contains(id) <==> (id != n@ && exists|t: int|
                0 <= t < k + 1 && ((#[trigger] edges@[t]).source@ == n@ && edges@[t].target@ == id
                    || edges@[t].target@ == n@ && edges@[t].source@ == id)) by {
                if old_near.contains(id) {
                    let t = choose|t: int| 0 <= t < k && ((#[trigger] edges@[t]).source@ == n@ && edges@[t].target@ == id
                        || edges@[t].target@ == n@ && edges@[t].source@ == id);
                    assert(0 <= t < k + 1);
                }
                if id != n@ && exists|t: int| 0 <= t < k + 1 && ((#[trigger] edges@[t]).source@ == n@ && edges@[t].target@ == id
                    || edges@[t].target@ == n@ && edges@[t].source@ == id) {
                    let t = choose|t: int| 0 <= t < k + 1 && ((#[trigger] edges@[t]).source@ == n@ && edges@[t].target@ == id
                        || edges@[t].target@ == n@ && edges@[t].source@ == id);
                    if t < k {
                        assert(old_near.contains(id));
                    }
                }
            }
        }
        k += 1;
    }
    let rest = near.to_vec();
    let mut r: Vec<String> = Vec::new();
    r.push(owned(n));
    let mut m: usize = 0;
    while m < rest.len()
        invariant
            m <= rest.len(),
            r@.len() == m + 1,
            texts(r@)[0] == n@,
            texts(r@).drop_first() == texts(rest@).take(m as int),
        decreases rest.len() - m,
    {
        let ghost prev = texts(r@);
        r.push(owned(rest[m].as_str()));
        assert(texts(r@) =~= prev.push(texts(rest@)[m as int]));
        m += 1;
        assert(texts(r@).drop_first() =~= texts(rest@).take(m as int));
    }
    assert(texts(rest@).take(rest.len() as int) =~= texts(rest@));
    assert(near@ =~= neighbours(edges@, n@));
    r
}

/// The modules put first in the full view: the removed module of the impact
/// trace, then the selected module, each only when it is a module and once.
pub open spec fn anchors(ids: Set<Seq<char>>, removed: Option<Seq<char>>, selected: Option<Seq<char>>) -> Seq<Seq<char>> {
    let first = match removed {
        Some(r) => if ids.contains(r) {
            seq![r]
        } else {
            Seq::empty()
        },
        None => Seq::empty(),
    };
    match selected {
        Some(s) => if ids.contains(s) && !first.contains(s) {
            first.push(s)
        } else {
            first
        },
        None => first,
    }
}

/// The view of an optional text.
pub open spec fn text_option(o: Option<&str>) -> Option<Seq<char>> {
    match o {
        Some(s) => Some(s@),
        None => None,
    }
}

fn module_set(modules: &Vec<ModuleAnalysis>) -> (r: IdSet)
    ensures
        r@ == module_ids(modules@),
{
    let mut ids = IdSet::new();
    let mut i: usize = 0;
    while i < modules.len()
        invariant
            i <= modules.len(),
            forall|id: Seq<char>| ids@.contains(id) <==> exists|t: int| 0 <= t < i && #[trigger] modules@[t].id@ == id,
        decreases modules.len() - i,
    {
        ids.insert(modules[i].id.as_str());
        proof {
            assert forall|id: Seq<char>| ids@.contains(id) <==> exists|t: int| 0 <= t < i + 1 && #[trigger] modules@[t].id@ == id by {
                if id == modules@[i as int].id@ {
                    assert(modules@[i as int].id@ == id);
                } else if ids@.contains(id) {
                    let t = choose|t: int| 0 <= t < i && #[trigger] modules@[t].id@ == id;
                    assert(0 <= t < i + 1);
                } else if exists|t: int| 0 <= t < i + 1 && #[trigger] modules@[t].id@ == id {
                    let t = choose|t: int| 0 <= t < i + 1 && #[trigger] modules@[t].id@ == id;
                    assert(t < i);
                }
            }
        }
        i += 1;
    }
    assert(ids@ =~= module_ids(modules@));
    ids
}

/// Candidates of the full view: the anchors, then every other module in text
/// order.
pub fn full_candidates(modules: &Vec<ModuleAnalysis>, removed: Option<&str>, selected: Option<&str>) -> (r: Vec<String>)
    ensures
        texts(r@).take(anchors(module_ids(modules@), text_option(removed), text_option(selected)).len() as int)
            == anchors(module_ids(modules@), text_option(removed), text_option(selected)),
        strictly_sorted(texts(r@).skip(anchors(module_ids(modules@), text_option(removed), text_option(selected)).len() as int)),
        texts(r@).skip(anchors(module_ids(modules@), text_option(removed), text_option(selected)).len() as int).to_set()
            == module_ids(modules@).difference(anchors(module_ids(modules@), text_option(removed), text_option(selected)).to_set()),
{
    let ids = module_set(modules);
    let ghost all = module_ids(modules@);
    let ghost a = anchors(all, text_option(removed), text_option(selected));
    let mut r: Vec<String> = Vec::new();
    let mut first_anchor: Option<String> = None;
    match removed {
        Some(x) => {
            if ids.contains(x) {
                r.push(owned(x));
                first_anchor = Some(owned(x));
            }
        },
        None => {},
    }
    match selected {
        Some(x) => {
            let repeated = match &first_anchor {
                Some(f) => str_eq(f.as_str(), x),
                None => false,
            };
            if ids.contains(x) && !repeated {
                r.push(owned(x));
            }
        },
        None => {},
    }
    proof {
        let first = match text_option(removed) {
            Some(x) => if all.contains(x) {
                seq![x]
            } else {
                Seq::<Seq<char>>::empty()
            },
            None => Seq::<Seq<char>>::empty(),
        };
        if let Some(x) = text_option(selected) {
            if first.len() == 1 {
                assert(first.contains(x) <==> first[0] == x);
            }
        }
        assert(texts(r@) =~= a);
    }
    let mut rest = IdSet::new();
    let mut i: usize = 0;
    let count = r.len();
    while i < modules.len()
        invariant
            i <= modules.len(),
            texts(r@) == a,
            r@.len() == count,
            forall|id: Seq<char>| rest@.contains(id) <==> (!a.contains(id) && exists|t: int| 0 <= t < i && #[trigger] modules@[t].id@ == id),
        decreases modules.len() - i,
    {
        let id = modules[i].id.as_str();
        let mut anchored = false;
        let mut q: usize = 0;
        while q < count
            invariant
                q <= count,
                r@.len() == count,
                texts(r@) == a,
                anchored == exists|t: int| 0 <= t < q && a[t] == id@,
            decreases count - q,
        {
            if str_eq(r[q].as_str(), id) {
                assert(a[q as int] == id@);
                anchored = true;
            }
            q += 1;
        }
        assert(a.len() == count);
        assert(anchored == a.contains(id@)) by {
            if a.contains(id@) {
                let t = choose|t: int| 0 <= t < a.len() && a[t] == id@;
                assert(0 <= t < q);
            }
        }
        let ghost old_rest = rest@;
        if !anchored {
            rest.insert(id);
        }
        let ghost j = i as int;
        i += 1;
        proof {
            assert forall|x: Seq<char>| rest@.contains(x) <==> (!a.contains(x) && exists|t: int| 0 <= t < i && #[trigger] modules@[t].id@ == x) by {
                if x == id@ {
                    assert(modules@[j].id@ == x);
                    if !anchored {
                        assert(rest@.contains(x));
                    } else {
                        assert(rest@ == old_rest);
                        assert(a.contains(x));
                        assert(!old_rest.contains(x));
                    }
                } else {
                    assert(rest@.contains(x) == old_rest.contains(x));
                    assert(old_rest.contains(x) <==> (!a.contains(x) && exists|t: int| 0 <= t < j && #[trigger] modules@[t].id@ == x));
                    if exists|t: int| 0 <= t < i && #[trigger] modules@[t].id@ == x {
                        let t = choose|t: int| 0 <= t < i && #[trigger] modules@[t].id@ == x;
                        assert(t != j);
                        assert(exists|u: int| 0 <= u < j && #[trigger] modules@[u].id@ == x);
                    }
                    if exists|t: int| 0 <= t < j && #[trigger] modules@[t].id@ == x {
                        let t = choose|t: int| 0 <= t < j && #[trigger] modules@[t].id@ == x;
                        assert(0 <= t < i && modules@[t].id@ == x);
                    }
                }
            }
        }
    }
    let tail = rest.to_vec();
    let mut m: usize = 0;
    while m < tail.len()
        invariant
            m <= tail.len(),
            r@.len() == count + m,
            texts(r@) == a + texts(tail@).take(m as int),
        decreases tail.len() - m,
    {
        let ghost prev = texts(r@);
        r.push(owned(tail[m].as_str()));
        assert(texts(r@) =~= prev.push(texts(tail@)[m as int]));
        m += 1;
        assert(texts(r@) =~= a + texts(tail@).take(m as int));
    }
    assert(texts(tail@).take(tail.len() as int) =~= texts(tail@));
    assert(texts(r@).take(a.len() as int) =~= a);
    assert(texts(r@).skip(a.len() as int) =~= texts(tail@));
    assert forall|x: Seq<char>| rest@.contains(x) <==> all.difference(a.to_set()).contains(x) by {
        assert(a.to_set().contains(x) == a.contains(x));
        assert(i == modules.len());
        assert(all.contains(x) <==> exists|t: int| 0 <= t < modules@.len() && #[trigger] modules@[t].id@ == x);
    }
    assert(rest@ =~= all.difference(a.to_set()));
    r
}

/// What the view centres on once its inputs are checked: the waves of an
/// impact trace, the neighbourhood of a module, or every module.
#[derive(Clone, Copy, Debug, PartialEq, Eq, Structural)]
pub enum Focus {
    Trace,
    Near,
    Full,
}

/// The focus the inputs give: the impact view needs a trace, the
/// neighbourhood view a module that exists; anything else shows every module.
pub open spec fn focus_of(view: GraphView, has_trace: bool, neighbour: Option<Seq<char>>, ids: Set<Seq<char>>) -> Focus {
    if view == GraphView::Impact && has_trace {
        Focus::Trace
    } else if view == GraphView::Nearby && neighbour is Some && ids.contains(neighbour.unwrap()) {
        Focus::Near
    } else {
        Focus::Full
    }
}

/// The dependency depth of the last module with this identifier.
pub open spec fn depth_of(modules: Seq<ModuleAnalysis>, id: Seq<char>) -> int
    decreases modules.len(),
{
    if modules.len() == 0 {
        0
    } else if modules.last().id@ == id {
        modules.last().dependency_depth as int
    } else {
        depth_of(modules.drop_last(), id)
    }
}

/// Whether `id` imports the module `n`.
pub open spec fn imports_centre(edges: Seq<DependencyEdge>, n: Seq<char>, id: Seq<char>) -> bool {
    exists|k: int| 0 <= k < edges.len() && (#[trigger] edges[k]).target@ == n && edges[k].source@ == id
}

/// The column of a shown module: its wave in a trace; in a neighbourhood 1
/// for the module itself, 2 for its importers and 0 for its dependencies;
/// otherwise its dependency depth.
pub open spec fn rank_in(
    focus: Focus,
    modules: Seq<ModuleAnalysis>,
    edges: Seq<DependencyEdge>,
    waves: Seq<Seq<Seq<char>>>,
    n: Seq<char>,
    id: Seq<char>,
) -> int {
    match focus {
        Focus::Trace => match last_wave(waves, id) {
            Some(w) => w,
            None => 0,
        },
        Focus::Near => if id == n {
            1
        } else if imports_centre(edges, n, id) {
            2
        } else {
            0
        },
        Focus::Full => depth_of(modules, id),
    }
}

/// The column of a module.
pub fn rank(
    focus: Focus,
    modules: &Vec<ModuleAnalysis>,
    edges: &Vec<DependencyEdge>,
    waves: &Vec<Vec<String>>,
    n: &str,
    id: &str,
) -> (r: usize)
    ensures
        r as int == rank_in(focus, modules@, edges@, wave_views(waves@), n@, id@),
{
    match focus {
        Focus::Trace => match wave_of(waves, id) {
            Some(w) => w,
            None => 0,
        },
        Focus::Near => {
            if str_eq(id, n) {
                return 1;
            }
            let mut k: usize = 0;
            while k < edges.len()
                invariant
                    k <= edges.len(),
                    focus == Focus::Near,
                    id@ != n@,
                    forall|t: int| 0 <= t < k ==> !((#[trigger] edges@[t]).target@ == n@ && edges@[t].source@ == id@),
                decreases edges.len() - k,
            {
                if str_eq(edges[k].target.as_str(), n) && str_eq(edges[k].source.as_str(), id) {
                    assert(edges@[k as int].target@ == n@ && edges@[k as int].source@ == id@);
                    return 2;
                }
                k += 1;
            }
            0
        },
        Focus::Full => {
            let mut i = modules.len();
            assert(modules@.take(i as int) =~= modules@);
            while i > 0
                invariant
                    i <= modules.len(),
                    focus == Focus::Full,
                    depth_of(modules@, id@) == depth_of(modules@.take(i as int), id@),
                decreases i,
            {
                assert(modules@.take(i as int).drop_last() =~= modules@.take(i - 1));
                assert(modules@.take(i as int).last() == modules@[i - 1]);
                if str_eq(modules[i - 1].id.as_str(), id) {
                    return modules[i - 1].dependency_depth;
                }
                i -= 1;
            }
            0
        },
    }
}

/// Strictly increasing ranks.
pub open spec fn increasing(s: Seq<usize>) -> bool {
    forall|i: int, j: int| 0 <= i < j < s.len() ==> s[i] < s[j]
}

/// Adds `x` to a strictly increasing list unless it is there.
fn insert_rank(v: &mut Vec<usize>, x: usize)
    requires
        increasing(old(v)@),
    ensures
        increasing(final(v)@),
        final(v)@.to_set() == old(v)@.to_set().insert(x),
{
    let mut i: usize = 0;
    while i < v.len() && v[i] < x
        invariant
            i <= v.len(),
            forall|t: int| 0 <= t < i ==> v@[t] < x,
        decreases v.len() - i,
    {
        i += 1;
    }
    if i < v.len() && v[i] == x {
        assert(v@.to_set().insert(x) =~= v@.to_set());
        return;
    }
    let ghost before = v@;
    v.insert(i, x);
    assert(v@ =~= before.take(i as int).push(x) + before.skip(i as int));
    assert forall|a: int, b: int| 0 <= a < b < v@.len() implies v@[a] < v@[b] by {
        if a < i && b > i {
            assert(v@[b] == before[b - 1]);
        } else if a == i && b > i {
            assert(v@[b] == before[b - 1]);
        } else if a > i {
            assert(v@[a] == before[a - 1] && v@[b] == before[b - 1]);
        }
    }
    assert forall|y: usize| v@.to_set().contains(y) <==> before.to_set().insert(x).contains(y) by {
        if v@.to_set().contains(y) {
            let t = choose|t: int| 0 <= t < v@.len() && v@[t] == y;
            if t < i {
                assert(before[t] == y);
            } else if t > i {
                assert(before[t - 1] == y);
            }
        }
        if before.to_set().contains(y) {
            let t = choose|t: int| 0 <= t < before.len() && before[t] == y;
            if t < i {
                assert(v@[t] == y);
            } else {
                assert(v@[t + 1] == y);
            }
        }
        if y == x {
            assert(v@[i as int] == x);
        }
    }
    assert(v@.to_set() =~= before.to_set().insert(x));
}

/// The columns of the shown modules: increasing ranks, each with the shown
/// modules of that rank in text order, and every shown module in the column
/// of its rank.
pub open spec fn columns_of(
    layers: Seq<(usize, Seq<Seq<char>>)>,
    shown: Seq<Seq<char>>,
    focus: Focus,
    modules: Seq<ModuleAnalysis>,
    edges: Seq<DependencyEdge>,
    waves: Seq<Seq<Seq<char>>>,
    n: Seq<char>,
) -> bool {
    &&& forall|i: int, j: int| 0 <= i < j < layers.len() ==> (#[trigger] layers[i]).0 < (#[trigger] layers[j]).0
    &&& forall|i: int| 0 <= i < layers.len() ==> (#[trigger] layers[i]).1.len() > 0 && strictly_sorted(layers[i].1)
    &&& forall|i: int| 0 <= i < layers.len() ==> (forall|id: Seq<char>| (#[trigger] layers[i]).1.contains(id) <==> (
        shown.contains(id) && rank_in(focus, modules, edges, waves, n, id) == layers[i].0 as int))
    &&& forall|id: Seq<char>| shown.contains(id) ==> exists|i: int| 0 <= i < layers.len() && (#[trigger] layers[i]).0 as int == rank_in(focus, modules, edges, waves, n, id)
}

/// The views of a list of columns.
pub open spec fn layer_views(v: Seq<(usize, Vec<String>)>) -> Seq<(usize, Seq<Seq<char>>)> {
    v.map_values(|l: (usize, Vec<String>)| (l.0, texts(l.1@)))
}

/// Groups the shown modules into columns by rank.
pub fn columns(
    shown: &Vec<String>,
    focus: Focus,
    modules: &Vec<ModuleAnalysis>,
    edges: &Vec<DependencyEdge>,
    waves: &Vec<Vec<String>>,
    n: &str,
) -> (r: Vec<(usize, Vec<String>)>)
    ensures
        columns_of(layer_views(r@), texts(shown@), focus, modules@, edges@, wave_views(waves@), n@),
{
    let ghost sv = texts(shown@);
    let mut ranks: Vec<usize> = Vec::new();
    let mut i: usize = 0;
    while i < shown.len()
        invariant
            i <= shown.len(),
            sv == texts(shown@),
            increasing(ranks@),
            forall|x: usize| ranks@.to_set().contains(x) <==> exists|t: int| 0 <= t < i && #[trigger] rank_in(focus, modules@, edges@, wave_views(waves@), n@, sv[t]) == x as int,
        decreases shown.len() - i,
    {
        let x = rank(focus, modules, edges, waves, n, shown[i].as_str());
        assert(rank_in(focus, modules@, edges@, wave_views(waves@), n@, sv[i as int]) == x as int);
        let ghost before = ranks@;
        insert_rank(&mut ranks, x);
        proof {
            assert forall|y: usize| ranks@.to_set().contains(y) <==> exists|t: int| 0 <= t < i + 1 && #[trigger] rank_in(focus, modules@, edges@, wave_views(waves@), n@, sv[t]) == y as int by {
                if y == x {
                    assert(rank_in(focus, modules@, edges@, wave_views(waves@), n@, sv[i as int]) == y as int);
                } else if ranks@.to_set().contains(y) {
                    assert(before.to_set().contains(y));
                    let t = choose|t: int| 0 <= t < i && #[trigger] rank_in(focus, modules@, edges@, wave_views(waves@), n@, sv[t]) == y as int;
                    assert(0 <= t < i + 1);
                } else if exists|t: int| 0 <= t < i + 1 && #[trigger] rank_in(focus, modules@, edges@, wave_views(waves@), n@, sv[t]) == y as int {
                    let t = choose|t: int| 0 <= t < i + 1 && #[trigger] rank_in(focus, modules@, edges@, wave_views(waves@), n@, sv[t]) == y as int;
                    if t < i {
                        assert(before.to_set().contains(y));
                    }
                }
            }
        }
        i += 1;
    }
    let mut r: Vec<(usize, Vec<String>)> = Vec::new();
    let mut c: usize = 0;
    while c < ranks.len()
        invariant
            c <= ranks.len(),
            sv == texts(shown@),
            increasing(ranks@),
            forall|x: usize| ranks@.to_set().contains(x) <==> exists|t: int| 0 <= t < shown.len() && #[trigger] rank_in(focus, modules@, edges@, wave_views(waves@), n@, sv[t]) == x as int,
            r@.len() == c,
            forall|k: int| 0 <= k < c ==> (#[trigger] layer_views(r@)[k]).0 == ranks@[k],
            forall|k: int| 0 <= k < c ==> (#[trigger] layer_views(r@)[k]).1.len() > 0 && strictly_sorted(layer_views(r@)[k].1),
            forall|k: int| 0 <= k < c ==> (forall|id: Seq<char>| (#[trigger] layer_views(r@)[k]).1.contains(id) <==> (
                sv.contains(id) && rank_in(focus, modules@, edges@, wave_views(waves@), n@, id) == ranks@[k] as int)),
        decreases ranks.len() - c,
    {
        let x = ranks[c];
        let mut members = IdSet::new();
        let mut j: usize = 0;
        while j < shown.len()
            invariant
                j <= shown.len(),
                sv == texts(shown@),
                forall|id: Seq<char>| members@.contains(id) <==> (exists|t: int| 0 <= t < j && sv[t] == id) && rank_in(focus, modules@, edges@, wave_views(waves@), n@, id) == x as int,
            decreases shown.len() - j,
        {
            let y = rank(focus, modules, edges, waves, n, shown[j].as_str());
            assert(sv[j as int] == shown@[j as int]@);
            let ghost old_members = members@;
            if y == x {
                members.insert(shown[j].as_str());
            }
            proof {
                assert forall|id: Seq<char>| members@.contains(id) <==> (exists|t: int| 0 <= t < j + 1 && sv[t] == id) && rank_in(focus, modules@, edges@, wave_views(waves@), n@, id) == x as int by {
                    if id == sv[j as int] {
                        assert(sv[j as int] == id);
                    } else {
                        assert(members@.contains(id) == old_members.contains(id));
                        if exists|t: int| 0 <= t < j + 1 && sv[t] == id {
                            let t = choose|t: int| 0 <= t < j + 1 && sv[t] == id;
                            assert(t < j);
                        }
                    }
                }
            }
            j += 1;
        }
        let list = members.to_vec();
        proof {
            assert(ranks@.to_set().contains(x));
            let t = choose|t: int| 0 <= t < shown.len() && #[trigger] rank_in(focus, modules@, edges@, wave_views(waves@), n@, sv[t]) == x as int;
            assert(members@.contains(sv[t]));
            assert(texts(list@).to_set().contains(sv[t]));
            assert forall|id: Seq<char>| texts(list@).contains(id) <==> (sv.contains(id) && rank_in(focus, modules@, edges@, wave_views(waves@), n@, id) == x as int) by {
                assert(texts(list@).to_set().contains(id) == texts(list@).contains(id));
            }
        }
        let ghost lv = texts(list@);
        let ghost before = layer_views(r@);
        r.push((x, list));
        assert(layer_views(r@) =~= before.push((x, lv)));
        c += 1;
    }
    proof {
        let lv = layer_views(r@);
        assert forall|id: Seq<char>| sv.contains(id) implies exists|i: int| 0 <= i < lv.len() && (#[trigger] lv[i]).0 as int == rank_in(focus, modules@, edges@, wave_views(waves@), n@, id) by {
            let t = choose|t: int| 0 <= t < sv.len() && sv[t] == id;
            let rv = rank_in(focus, modules@, edges@, wave_views(waves@), n@, sv[t]);
            assert(wave_views(waves@).len() == waves.len());
            lemma_rank_bounds(focus, modules@, edges@, wave_views(waves@), n@, sv[t]);
            let x = rv as usize;
            assert(x as int == rv);
            assert(exists|u: int| 0 <= u < shown.len() && #[trigger] rank_in(focus, modules@, edges@, wave_views(waves@), n@, sv[u]) == x as int) by {
                assert(rank_in(focus, modules@, edges@, wave_views(waves@), n@, sv[t]) == x as int);
            }
            assert(ranks@.to_set().contains(x));
            let k = choose|k: int| 0 <= k < ranks@.len() && ranks@[k] == x;
            assert(lv[k].0 == x);
        }
    }
    r
}

proof fn lemma_rank_bounds(
    focus: Focus,
    modules: Seq<ModuleAnalysis>,
    edges: Seq<DependencyEdge>,
    waves: Seq<Seq<Seq<char>>>,
    n: Seq<char>,
    id: Seq<char>,
)
    requires
        waves.len() <= usize::MAX,
    ensures
        0 <= rank_in(focus, modules, edges, waves, n, id) <= usize::MAX,
{
    lemma_last_wave(waves, id);
    lemma_depth_bounds(modules, id);
}

proof fn lemma_depth_bounds(modules: Seq<ModuleAnalysis>, id: Seq<char>)
    ensures
        0 <= depth_of(modules, id) <= usize::MAX,
    decreases modules.len(),
{
    if modules.len() > 0 {
        lemma_depth_bounds(modules.drop_last(), id);
    }
}

/// `a` comes before `b` by dependency, then by importer, in text order.
pub open spec fn pair_before(a: (Seq<char>, Seq<char>), b: (Seq<char>, Seq<char>)) -> bool {
    seq_lt(a.0, b.0) || (a.0 == b.0 && seq_lt(a.1, b.1))
}

/// Pairs in strictly increasing order.
pub open spec fn pairs_sorted(s: Seq<(Seq<char>, Seq<char>)>) -> bool {
    forall|i: int, j: int| 0 <= i < j < s.len() ==> pair_before(#[trigger] s[i], #[trigger] s[j])
}

/// The views of a list of pairs.
pub open spec fn pair_views(v: Seq<(String, String)>) -> Seq<(Seq<char>, Seq<char>)> {
    v.map_values(|p: (String, String)| (p.0@, p.1@))
}

/// The lines drawn between shown modules, each from a dependency to its
/// importer: exactly the real edges whose two ends are shown.
pub open spec fn drawn(edges: Seq<DependencyEdge>, shown: Set<Seq<char>>) -> Set<(Seq<char>, Seq<char>)> {
    Set::new(
        |p: (Seq<char>, Seq<char>)|
            shown.contains(p.0) && shown.contains(p.1) && exists|k: int|
                0 <= k < edges.len() && (#[trigger] edges[k]).target@ == p.0 && edges[k].source@ == p.1,
    )
}

/// `x` is among the first `i` of the listed targets.
pub open spec fn listed_before(tv: Seq<Seq<char>>, i: int, x: Seq<char>) -> bool {
    exists|m: int| 0 <= m < i && tv[m] == x
}

/// The lines between the shown modules, once each, in order.
pub fn links(edges: &Vec<DependencyEdge>, shown: &IdSet) -> (r: Vec<(String, String)>)
    ensures
        pairs_sorted(pair_views(r@)),
        pair_views(r@).to_set() == drawn(edges@, shown@),
{
    let mut targets = IdSet::new();
    let mut k: usize = 0;
    while k < edges.len()
        invariant
            k <= edges.len(),
            forall|t: Seq<char>| targets@.contains(t) <==> exists|q: int|
                0 <= q < k && (#[trigger] edges@[q]).target@ == t && shown@.contains(t) && shown@.contains(edges@[q].source@),
        decreases edges.len() - k,
    {
        let e = &edges[k];
        let ghost old_targets = targets@;
        if shown.contains(e.target.as_str()) && shown.contains(e.source.as_str()) {
            targets.insert(e.target.as_str());
        }
        proof {
            assert forall|t: Seq<char>| targets@.contains(t) <==> exists|q: int|
                0 <= q < k + 1 && (#[trigger] edges@[q]).target@ == t && shown@.contains(t) && shown@.contains(edges@[q].source@) by {
                if t != e.target@ {
                    assert(targets@.contains(t) == old_targets.contains(t));
                    if exists|q: int| 0 <= q < k + 1 && (#[trigger] edges@[q]).target@ == t && shown@.contains(t) && shown@.contains(edges@[q].source@) {
                        let q = choose|q: int| 0 <= q < k + 1 && (#[trigger] edges@[q]).target@ == t && shown@.contains(t) && shown@.contains(edges@[q].source@);
                        assert(q < k);
                    }
                } else {
                    assert(edges@[k as int] == *e);
                    if targets@.contains(t) && !old_targets.contains(t) {
                        assert(edges@[k as int].target@ == t);
                    }
                    if old_targets.contains(t) {
                        let q = choose|q: int| 0 <= q < k && (#[trigger] edges@[q]).target@ == t && shown@.contains(t) && shown@.contains(edges@[q].source@);
                        assert(0 <= q < k + 1);
                    }
                }
            }
        }
        k += 1;
    }
    let order = targets.to_vec();
    let ghost tv = texts(order@);
    let mut r: Vec<(String, String)> = Vec::new();
    let mut i: usize = 0;
    assert(pair_views(r@) =~= Seq::<(Seq<char>, Seq<char>)>::empty());
    while i < order.len()
        invariant
            i <= order.len(),
            tv == texts(order@),
            strictly_sorted(tv),
            tv.to_set() == targets@,
            forall|t: Seq<char>| targets@.contains(t) <==> exists|q: int|
                0 <= q < edges@.len() && (#[trigger] edges@[q]).target@ == t && shown@.contains(t) && shown@.contains(edges@[q].source@),
            pairs_sorted(pair_views(r@)),
            forall|k: int| 0 <= k < r@.len() ==> listed_before(tv, i as int, (#[trigger] pair_views(r@)[k]).0),
            forall|p: (Seq<char>, Seq<char>)| pair_views(r@).contains(p) <==> (drawn(edges@, shown@).contains(p) && listed_before(tv, i as int, p.0)),
        decreases order.len() - i,
    {
        let t = order[i].as_str();
        assert(tv[i as int] == t@);
        let ghost before = pair_views(r@);
        assert forall|k: int| 0 <= k < before.len() implies listed_before(tv, i as int, (#[trigger] before[k]).0) by {
            assert(before[k] == pair_views(r@)[k]);
        }
        let mut sources = IdSet::new();
        let mut q: usize = 0;
        while q < edges.len()
            invariant
                q <= edges.len(),
                before == pair_views(r@),
                forall|k: int| 0 <= k < before.len() ==> listed_before(tv, i as int, (#[trigger] before[k]).0),
                forall|x: Seq<char>| sources@.contains(x) <==> exists|u: int|
                    0 <= u < q && (#[trigger] edges@[u]).target@ == t@ && edges@[u].source@ == x && shown@.contains(x) && shown@.contains(t@),
            decreases edges.len() - q,
        {
            let e = &edges[q];
            let ghost old_sources = sources@;
            if str_eq(e.target.as_str(), t) && shown.contains(e.source.as_str()) && shown.contains(t) {
                sources.insert(e.source.as_str());
            }
            proof {
                assert forall|x: Seq<char>| sources@.contains(x) <==> exists|u: int|
                    0 <= u < q + 1 && (#[trigger] edges@[u]).target@ == t@ && edges@[u].source@ == x && shown@.contains(x) && shown@.contains(t@) by {
                    if x != e.source@ {
                        assert(sources@.contains(x) == old_sources.contains(x));
                        if exists|u: int| 0 <= u < q + 1 && (#[trigger] edges@[u]).target@ == t@ && edges@[u].source@ == x && shown@.contains(x) && shown@.contains(t@) {
                            let u = choose|u: int| 0 <= u < q + 1 && (#[trigger] edges@[u]).target@ == t@ && edges@[u].source@ == x && shown@.contains(x) && shown@.contains(t@);
                            assert(u < q);
                        }
                    } else {
                        assert(edges@[q as int] == *e);
                        if old_sources.contains(x) {
                            let u = choose|u: int| 0 <= u < q && (#[trigger] edges@[u]).target@ == t@ && edges@[u].source@ == x && shown@.contains(x) && shown@.contains(t@);
                            assert(0 <= u < q + 1);
                        }
                    }
                }
            }
            q += 1;
        }
        let from = sources.to_vec();
        let ghost sv = texts(from@);
        let mut m: usize = 0;
        while m < from.len()
            invariant
                m <= from.len(),
                tv == texts(order@),
                strictly_sorted(tv),
                i < tv.len(),
                tv[i as int] == t@,
                sv == texts(from@),
                strictly_sorted(sv),
                sv.to_set() == sources@,
                pair_views(r@) == before + sv.take(m as int).map_values(|x: Seq<char>| (t@, x)),
                pairs_sorted(before),
                pairs_sorted(pair_views(r@)),
                forall|k: int| 0 <= k < before.len() ==> listed_before(tv, i as int, (#[trigger] before[k]).0),
            decreases from.len() - m,
        {
            let ghost prev = pair_views(r@);
            r.push((owned(t), owned(from[m].as_str())));
            assert(pair_views(r@) =~= prev.push((t@, sv[m as int])));
            m += 1;
            assert(sv.take(m as int).map_values(|x: Seq<char>| (t@, x)) =~= sv.take(m - 1).map_values(|x: Seq<char>| (t@, x)).push((t@, sv[m - 1])));
            proof {
                let ps = pair_views(r@);
                assert forall|a: int, b: int| 0 <= a < b < ps.len() implies pair_before(#[trigger] ps[a], #[trigger] ps[b]) by {
                    let bl = before.len() as int;
                    if b >= bl {
                        assert(ps[b] == (t@, sv[b - bl]));
                        if a >= bl {
                            assert(ps[a] == (t@, sv[a - bl]));
                            assert(seq_lt(sv[a - bl], sv[b - bl]));
                        } else {
                            assert(ps[a] == before[a]);
                            let m2 = choose|m2: int| 0 <= m2 < i && tv[m2] == before[a].0;
                            assert(seq_lt(tv[m2], tv[i as int]));
                        }
                    } else {
                        assert(ps[a] == before[a] && ps[b] == before[b]);
                    }
                }
            }
        }
        assert(sv.take(from.len() as int) =~= sv);
        proof {
            let ps = pair_views(r@);
            assert forall|k: int| 0 <= k < ps.len() implies listed_before(tv, i + 1, (#[trigger] ps[k]).0) by {
                if k >= before.len() {
                    assert(ps[k].0 == t@);
                    assert(tv[i as int] == t@);
                } else {
                    assert(ps[k] == before[k]);
                    let m2 = choose|m2: int| 0 <= m2 < i && tv[m2] == before[k].0;
                    assert(0 <= m2 < i + 1);
                }
            }
            assert forall|p: (Seq<char>, Seq<char>)| ps.contains(p) <==> (drawn(edges@, shown@).contains(p) && listed_before(tv, i + 1, p.0)) by {
                if ps.contains(p) {
                    let k = choose|k: int| 0 <= k < ps.len() && ps[k] == p;
                    if k >= before.len() {
                        let x = sv[k - before.len()];
                        assert(ps[k] == (t@, x));
                        assert(sv.to_set().contains(x));
                        assert(sources@.contains(x));
                        assert(tv[i as int] == p.0);
                    } else {
                        assert(before.contains(p));
                        let m2 = choose|m2: int| 0 <= m2 < i && tv[m2] == p.0;
                        assert(0 <= m2 < i + 1);
                    }
                }
                if drawn(edges@, shown@).contains(p) && listed_before(tv, i + 1, p.0) {
                    let m2 = choose|m2: int| 0 <= m2 < i + 1 && tv[m2] == p.0;
                    if m2 < i {
                        assert(before.contains(p));
                        let k = choose|k: int| 0 <= k < before.len() && before[k] == p;
                        assert(ps[k] == p);
                    } else {
                        assert(p.0 == t@);
                        let u = choose|u: int| 0 <= u < edges@.len() && (#[trigger] edges@[u]).target@ == p.0 && edges@[u].source@ == p.1;
                        assert(sources@.contains(p.1));
                        assert(sv.to_set().contains(p.1));
                        let j = choose|j: int| 0 <= j < sv.len() && sv[j] == p.1;
                        assert(ps[before.len() + j] == p);
                    }
                }
            }
        }
        i += 1;
    }
    proof {
        let ps = pair_views(r@);
        assert forall|p: (Seq<char>, Seq<char>)| ps.to_set().contains(p) <==> drawn(edges@, shown@).contains(p) by {
            if drawn(edges@, shown@).contains(p) {
                let u = choose|u: int| 0 <= u < edges@.len() && (#[trigger] edges@[u]).target@ == p.0 && edges@[u].source@ == p.1;
                assert(targets@.contains(p.0));
                assert(tv.to_set().contains(p.0));
            }
        }
        assert(ps.to_set() =~= drawn(edges@, shown@));
    }
    r
}

/// A line pulses when its importer lies in the wave right after its
/// dependency's.
pub open spec fn causal_link(waves: Seq<Seq<Seq<char>>>, p: (Seq<char>, Seq<char>)) -> bool {
    &&& last_wave(waves, p.0) is Some
    &&& last_wave(waves, p.1) is Some
    &&& last_wave(waves, p.1).unwrap() == last_wave(waves, p.0).unwrap() + 1
}

/// How many of the modules neither appear in the trace nor are unavailable.
pub open spec fn untouched_count(modules: Seq<ModuleAnalysis>, waves: Seq<Seq<Seq<char>>>, unavailable: Set<Seq<char>>) -> nat
    decreases modules.len(),
{
    if modules.len() == 0 {
        0
    } else {
        untouched_count(modules.drop_last(), waves, unavailable) + if last_wave(waves, modules.last().id@) is None
            && !unavailable.contains(modules.last().id@) {
            1nat
        } else {
            0nat
        }
    }
}

/// Counts the modules that the trace leaves untouched and that are still
/// available.
pub fn untouched(modules: &Vec<ModuleAnalysis>, waves: &Vec<Vec<String>>, unavailable: &IdSet) -> (r: usize)
    ensures
        r == untouched_count(modules@, wave_views(waves@), unavailable@),
{
    let mut count: usize = 0;
    let mut i: usize = 0;
    while i < modules.len()
        invariant
            i <= modules.len(),
            count == untouched_count(modules@.take(i as int), wave_views(waves@), unavailable@),
            count <= i,
        decreases modules.len() - i,
    {
        assert(modules@.take(i + 1).drop_last() =~= modules@.take(i as int));
        assert(modules@.take(i + 1).last() == modules@[i as int]);
        let id = modules[i].id.as_str();
        if wave_of(waves, id).is_none() && !unavailable.contains(id) {
            count += 1;
        }
        i += 1;
    }
    assert(modules@.take(modules.len() as int) =~= modules@);
    count
}

/// Which of the lines pulse.
pub fn causal(links: &Vec<(String, String)>, waves: &Vec<Vec<String>>) -> (r: Vec<bool>)
    ensures
        r@.len() == links@.len(),
        forall|k: int| 0 <= k < r@.len() ==> r@[k] == causal_link(wave_views(waves@), #[trigger] pair_views(links@)[k]),
{
    let mut r: Vec<bool> = Vec::new();
    let mut k: usize = 0;
    while k < links.len()
        invariant
            k <= links.len(),
            r@.len() == k,
            forall|t: int| 0 <= t < k ==> r@[t] == causal_link(wave_views(waves@), #[trigger] pair_views(links@)[t]),
        decreases links.len() - k,
    {
        let from = wave_of(waves, links[k].0.as_str());
        let to = wave_of(waves, links[k].1.as_str());
        let pulse = match (from, to) {
            (Some(a), Some(b)) => a < usize::MAX && b == a + 1,
            _ => false,
        };
        proof {
            assert(pair_views(links@)[k as int] == (links@[k as int].0@, links@[k as int].1@));
            lemma_last_wave(wave_views(waves@), links@[k as int].0@);
        }
        r.push(pulse);
        k += 1;
    }
    r
}

/// Everything the view shows: the ordered candidates, those shown (at most
/// [`MAX_VISIBLE`]) and how many are left out, the columns, the lines with
/// whether each pulses, and how many modules the trace leaves untouched.
pub struct LayoutPlan {
    pub candidates: Vec<String>,
    pub shown: Vec<String>,
    pub hidden: usize,
    pub layers: Vec<(usize, Vec<String>)>,
    pub links: Vec<(String, String)>,
    pub causal: Vec<bool>,
    pub untouched: usize,
}

/// The candidates in the order the focus gives them: by wave for a trace;
/// the module then its neighbours for a neighbourhood; the anchors then the
/// other modules otherwise, text order within each part.
pub open spec fn candidates_in_order(
    c: Seq<Seq<char>>,
    focus: Focus,
    modules: Seq<ModuleAnalysis>,
    edges: Seq<DependencyEdge>,
    waves: Seq<Seq<Seq<char>>>,
    removed: Option<Seq<char>>,
    selected: Option<Seq<char>>,
    n: Seq<char>,
) -> bool {
    match focus {
        Focus::Trace => wave_sorted(waves, c) && c.to_set() == traced(waves),
        Focus::Near => c.len() >= 1 && c[0] == n && strictly_sorted(c.drop_first()) && c.drop_first().to_set()
            == neighbours(edges, n),
        Focus::Full => {
            let a = anchors(module_ids(modules), removed, selected);
            &&& c.take(a.len() as int) == a
            &&& strictly_sorted(c.skip(a.len() as int))
            &&& c.skip(a.len() as int).to_set() == module_ids(modules).difference(a.to_set())
        },
    }
}

/// The waves of an optional trace.
pub open spec fn trace_waves(impact: Option<&crate::model::ImpactResult>) -> Seq<Seq<Seq<char>>> {
    match impact {
        Some(r) => wave_views(r.waves@),
        None => Seq::empty(),
    }
}

/// Plans the dependency view: which modules it shows, in which columns, and
/// which lines connect them.
pub fn layout_plan(
    modules: &Vec<ModuleAnalysis>,
    edges: &Vec<DependencyEdge>,
    view: GraphView,
    selected: Option<&str>,
    neighbour: Option<&str>,
    impact: Option<&crate::model::ImpactResult>,
    unavailable: &IdSet,
) -> (r: LayoutPlan)
    ensures
        ({
            let focus = focus_of(view, impact is Some, text_option(neighbour), module_ids(modules@));
            let waves = trace_waves(impact);
            let n = match neighbour {
                Some(x) => x@,
                None => Seq::empty(),
            };
            let removed = match impact {
                Some(i) => Some(i.removed_module_id@),
                None => None,
            };
            let shown = texts(r.shown@);
            &&& candidates_in_order(texts(r.candidates@), focus, modules@, edges@, waves, removed, text_option(selected), n)
            &&& shown == texts(r.candidates@).take(shown.len() as int)
            &&& shown.len() == if r.candidates@.len() > MAX_VISIBLE {
                MAX_VISIBLE as int
            } else {
                r.candidates@.len() as int
            }
            &&& r.hidden == r.candidates@.len() - shown.len()
            &&& columns_of(layer_views(r.layers@), shown, focus, modules@, edges@, waves, n)
            &&& pairs_sorted(pair_views(r.links@))
            &&& pair_views(r.links@).to_set() == drawn(edges@, shown.to_set())
            &&& r.causal@.len() == r.links@.len()
            &&& forall|k: int| 0 <= k < r.causal@.len() ==> r.causal@[k] == causal_link(waves, #[trigger] pair_views(r.links@)[k])
            &&& r.untouched == untouched_count(modules@, waves, unavailable@)
        }),
{
    let ids = module_set(modules);
    let no_waves: Vec<Vec<String>> = Vec::new();
    let waves: &Vec<Vec<String>> = match impact {
        Some(i) => &i.waves,
        None => &no_waves,
    };
    assert(wave_views(no_waves@) =~= Seq::<Seq<Seq<char>>>::empty());
    let n: &str = match neighbour {
        Some(x) => x,
        None => "",
    };
    proof {
        reveal_strlit("");
    }
    let focus = if view == GraphView::Impact && impact.is_some() {
        Focus::Trace
    } else if view == GraphView::Nearby && neighbour.is_some() && ids.contains(n) {
        Focus::Near
    } else {
        Focus::Full
    };
    let candidates = match focus {
        Focus::Trace => impact_candidates(waves),
        Focus::Near => nearby_candidates(edges, n),
        Focus::Full => {
            let removed = match impact {
                Some(i) => Some(i.removed_module_id.as_str()),
                None => None,
            };
            full_candidates(modules, removed, selected)
        },
    };
    let count = if candidates.len() > MAX_VISIBLE {
        MAX_VISIBLE
    } else {
        candidates.len()
    };
    let mut shown: Vec<String> = Vec::new();
    let mut shown_set = IdSet::new();
    let mut i: usize = 0;
    while i < count
        invariant
            i <= count <= candidates.len(),
            texts(shown@) == texts(candidates@).take(i as int),
            shown_set@ == texts(shown@).to_set(),
        decreases count - i,
    {
        let ghost before = texts(shown@);
        shown.push(owned(candidates[i].as_str()));
        shown_set.insert(candidates[i].as_str());
        assert(texts(shown@) =~= before.push(candidates@[i as int]@));
        i += 1;
        assert(texts(candidates@).take(i as int) =~= texts(candidates@).take(i - 1).push(candidates@[i - 1]@));
        assert forall|y: Seq<char>| texts(shown@).to_set().contains(y) <==> before.to_set().insert(candidates@[i - 1]@).contains(y) by {
            let now = texts(shown@);
            if now.contains(y) {
                let t = choose|t: int| 0 <= t < now.len() && now[t] == y;
                if t < before.len() {
                    assert(before[t] == y);
                }
            }
            if before.contains(y) {
                let t = choose|t: int| 0 <= t < before.len() && before[t] == y;
                assert(now[t] == y);
            }
            if y == candidates@[i - 1]@ {
                assert(now[before.len() as int] == y);
            }
        }
        assert(texts(shown@).to_set() =~= before.to_set().insert(candidates@[i - 1]@));
    }
    let hidden = candidates.len() - count;
    let layers = columns(&shown, focus, modules, edges, waves, n);
    let lines = links(edges, &shown_set);
    let pulses = causal(&lines, waves);
    let untouched = untouched(modules, waves, unavailable);
    LayoutPlan { candidates, shown, hidden, layers, links: lines, causal: pulses, untouched }
}

} // verus!
