//! Turning the imports found in every module into the internal edges, the
//! external count and the sorted unresolved imports of an analysis.
use vstd::prelude::*;
use crate::model::{kind_index, kind_rank, DependencyEdge, DependencyKind, FileSet, ModuleAnalysis, UnresolvedImport};
use crate::order::texts;
use crate::resolver::{extension_list, js_extensions};
use crate::scanner::{omitted_line, Warnings, WarningsView, MAX_WARNINGS};
use crate::metrics::{
    calculate, critical_spec, cycle_number, distinct_ids, edges_known, distinct_links, graph_metrics, lemma_same_index,
    links, same_file,
};
use crate::graph::cycle_numbering;
use crate::impact::{id_index, lemma_id_index};
use crate::text_util::{
    after_last, before_last, chars_of, last_index, lemma_split_push, split_on, string_of, vec_after_last,
    vec_before_last, vec_concat, vec_last_index, vec_slice, views,
};
use crate::scanner::ascii_lower;
use crate::order::{lemma_lt_irreflexive, lemma_lt_total, lemma_lt_transitive};
use crate::resolver::{Resolution, ResolutionView};
use crate::text_util::{owned, seq_lt, str_eq, str_lt};

verus! {

/// One import of a module with what it resolved to.
pub struct ResolvedImport {
    pub specifier: String,
    pub kind: DependencyKind,
    pub resolution: Resolution,
}

/// The imports found in one module, and whether its syntax tree holds errors.
pub struct Extracted {
    pub imports: Vec<ResolvedImport>,
    pub has_errors: bool,
}

/// The targets of the first import naming each scanned file, in import order, with its kind.
pub open spec fn fresh_targets(imps: Seq<ResolvedImport>, known: Set<Seq<char>>) -> Seq<(Seq<char>, DependencyKind)>
    decreases imps.len(),
{
    if imps.len() == 0 {
        Seq::empty()
    } else {
        let prev = fresh_targets(imps.drop_last(), known);
        let x = imps.last();
        match x.resolution@ {
            ResolutionView::Internal(t) => if known.contains(t) && !target_names(prev).contains(t) {
                prev.push((t, x.kind))
            } else {
                prev
            },
            _ => prev,
        }
    }
}

/// The target files of a list of targets.
pub open spec fn target_names(v: Seq<(Seq<char>, DependencyKind)>) -> Seq<Seq<char>> {
    v.map_values(|p: (Seq<char>, DependencyKind)| p.0)
}

/// Two imports are the same external import: same specifier and kind.
pub open spec fn same_external(a: ResolvedImport, b: ResolvedImport) -> bool {
    a.resolution@ == ResolutionView::External && b.resolution@ == ResolutionView::External
        && a.specifier@ == b.specifier@ && a.kind == b.kind
}

/// How many distinct (specifier, kind) pairs resolve outside the project.
pub open spec fn external_count(imps: Seq<ResolvedImport>) -> nat
    decreases imps.len(),
{
    if imps.len() == 0 {
        0
    } else {
        let x = imps.last();
        external_count(imps.drop_last()) + if x.resolution@ == ResolutionView::External && !exists|j: int|
            0 <= j < imps.len() - 1 && #[trigger] same_external(imps[j], x) {
            1nat
        } else {
            0nat
        }
    }
}

/// An unresolved import as plain values: specifier, kind, reason.
pub open spec fn unresolved_value(u: UnresolvedImport) -> (Seq<char>, DependencyKind, Seq<char>) {
    (u.specifier@, u.kind, u.reason@)
}

/// The distinct unresolved imports, as plain values.
pub open spec fn unresolved_set(imps: Seq<ResolvedImport>) -> Set<(Seq<char>, DependencyKind, Seq<char>)> {
    Set::new(
        |v: (Seq<char>, DependencyKind, Seq<char>)|
            exists|j: int|
                0 <= j < imps.len() && #[trigger] imps[j].resolution@ == ResolutionView::Unresolved(v.2)
                    && imps[j].specifier@ == v.0 && imps[j].kind == v.1,
    )
}

/// The order of unresolved imports: by specifier, then kind, then reason.
pub open spec fn unresolved_lt(
    a: (Seq<char>, DependencyKind, Seq<char>),
    b: (Seq<char>, DependencyKind, Seq<char>),
) -> bool {
    ||| seq_lt(a.0, b.0)
    ||| (a.0 == b.0 && kind_rank(a.1) < kind_rank(b.1))
    ||| (a.0 == b.0 && a.1 == b.1 && seq_lt(a.2, b.2))
}

/// The unresolved imports, each strictly before the next.
pub open spec fn unresolved_sorted(v: Seq<UnresolvedImport>) -> bool {
    forall|a: int, b: int|
        0 <= a < b < v.len() ==> unresolved_lt(unresolved_value(#[trigger] v[a]), unresolved_value(#[trigger] v[b]))
}

proof fn lemma_unresolved_order(
    a: (Seq<char>, DependencyKind, Seq<char>),
    b: (Seq<char>, DependencyKind, Seq<char>),
    c: (Seq<char>, DependencyKind, Seq<char>),
)
    ensures
        !unresolved_lt(a, a),
        unresolved_lt(a, b) && unresolved_lt(b, c) ==> unresolved_lt(a, c),
        a != b ==> unresolved_lt(a, b) || unresolved_lt(b, a),
{
    lemma_lt_irreflexive(a.0);
    lemma_lt_irreflexive(a.2);
    if unresolved_lt(a, b) && unresolved_lt(b, c) {
        if seq_lt(a.0, b.0) && seq_lt(b.0, c.0) {
            lemma_lt_transitive(a.0, b.0, c.0);
        }
        if seq_lt(a.2, b.2) && seq_lt(b.2, c.2) {
            lemma_lt_transitive(a.2, b.2, c.2);
        }
    }
    if a != b {
        if a.0 != b.0 {
            lemma_lt_total(a.0, b.0);
        } else if a.1 == b.1 {
            if a.2 == b.2 {
                assert(a == b);
            }
            lemma_lt_total(a.2, b.2);
        } else {
            assert(kind_rank(a.1) != kind_rank(b.1));
        }
    }
}

/// Whether `a` comes before `b` in the order of unresolved imports.
fn unresolved_before(a: &UnresolvedImport, b: &UnresolvedImport) -> (r: bool)
    ensures
        r == unresolved_lt(unresolved_value(*a), unresolved_value(*b)),
{
    if str_lt(a.specifier.as_str(), b.specifier.as_str()) {
        return true;
    }
    if !str_eq(a.specifier.as_str(), b.specifier.as_str()) {
        return false;
    }
    let ka = kind_index(a.kind);
    let kb = kind_index(b.kind);
    if ka != kb {
        return ka < kb;
    }
    proof {
        if a.kind != b.kind {
            assert(kind_rank(a.kind) != kind_rank(b.kind));
        }
    }
    str_lt(a.reason.as_str(), b.reason.as_str())
}

/// Adds an unresolved import to a sorted list unless an equal one is there.
fn insert_unresolved(v: &mut Vec<UnresolvedImport>, x: UnresolvedImport)
    requires
        unresolved_sorted(old(v)@),
    ensures
        unresolved_sorted(final(v)@),
        final(v)@.map_values(|u: UnresolvedImport| unresolved_value(u)).to_set() == old(v)@.map_values(
            |u: UnresolvedImport| unresolved_value(u),
        ).to_set().insert(unresolved_value(x)),
        final(v).len() <= old(v).len() + 1,
{
    let ghost xv = unresolved_value(x);
    let ghost vals = old(v)@.map_values(|u: UnresolvedImport| unresolved_value(u));
    let mut p: usize = 0;
    while p < v.len() && unresolved_before(&v[p], &x)
        invariant
            p <= v.len(),
            v@ == old(v)@,
            xv == unresolved_value(x),
            unresolved_sorted(v@),
            forall|a: int| 0 <= a < p ==> unresolved_lt(unresolved_value(#[trigger] v@[a]), xv),
        decreases v.len() - p,
    {
        p += 1;
    }
    if p < v.len() && !unresolved_before(&x, &v[p]) {
        proof {
            lemma_unresolved_order(unresolved_value(v@[p as int]), xv, xv);
            assert(unresolved_value(v@[p as int]) == xv);
            assert(vals[p as int] == xv);
            assert(vals.to_set().insert(xv) =~= vals.to_set());
        }
        return;
    }
    proof {
        assert forall|a: int| p <= a < v.len() implies unresolved_lt(xv, unresolved_value(#[trigger] v@[a])) by {
            if a > p {
                lemma_unresolved_order(xv, unresolved_value(v@[p as int]), unresolved_value(v@[a]));
            }
        }
    }
    let ghost before = v@;
    v.insert(p, x);
    proof {
        assert(v@ == before.insert(p as int, x));
        assert forall|a: int, b: int| 0 <= a < b < v@.len() implies unresolved_lt(
            unresolved_value(#[trigger] v@[a]),
            unresolved_value(#[trigger] v@[b]),
        ) by {
            if b < p {
            } else if b == p {
            } else if a < p {
                assert(v@[b] == before[b - 1]);
                lemma_unresolved_order(unresolved_value(v@[a]), xv, unresolved_value(v@[b]));
            } else if a == p {
                assert(v@[b] == before[b - 1]);
            } else {
                assert(v@[a] == before[a - 1]);
                assert(v@[b] == before[b - 1]);
            }
        }
        let nv = v@.map_values(|u: UnresolvedImport| unresolved_value(u));
        assert forall|w: (Seq<char>, DependencyKind, Seq<char>)| nv.to_set().contains(w) <==> vals.to_set().insert(xv).contains(w) by {
            if nv.to_set().contains(w) {
                let k = choose|k: int| 0 <= k < nv.len() && nv[k] == w;
                if k < p {
                    assert(vals[k] == w);
                } else if k > p {
                    assert(vals[k - 1] == w);
                }
            }
            if vals.to_set().contains(w) {
                let k = choose|k: int| 0 <= k < vals.len() && vals[k] == w;
                if k < p {
                    assert(nv[k] == w);
                } else {
                    assert(nv[k + 1] == w);
                }
            }
            if w == xv {
                assert(nv[p as int] == w);
            }
        }
        assert(nv.to_set() =~= vals.to_set().insert(xv));
    }
}

/// What the imports of one module contribute to an analysis.
pub struct ModuleLinks {
    /// The first import naming each scanned file, in import order.
    pub targets: Vec<(String, DependencyKind)>,
    /// How many distinct imports lead outside the project.
    pub external: usize,
    /// The distinct unresolved imports, sorted.
    pub unresolved: Vec<UnresolvedImport>,
}

/// The targets as plain values.
pub open spec fn target_values(v: Seq<(String, DependencyKind)>) -> Seq<(Seq<char>, DependencyKind)> {
    v.map_values(|p: (String, DependencyKind)| (p.0@, p.1))
}

/// The unresolved imports as plain values.
pub open spec fn unresolved_values(v: Seq<UnresolvedImport>) -> Seq<(Seq<char>, DependencyKind, Seq<char>)> {
    v.map_values(|u: UnresolvedImport| unresolved_value(u))
}

/// Sorts the imports of one module into scanned targets, external imports and unresolved ones.
pub fn module_links(imports: &Vec<ResolvedImport>, known: &FileSet) -> (r: ModuleLinks)
    ensures
        target_values(r.targets@) == fresh_targets(imports@, known@),
        r.external == external_count(imports@),
        unresolved_sorted(r.unresolved@),
        unresolved_values(r.unresolved@).to_set() == unresolved_set(imports@),
        r.unresolved.len() <= imports.len(),
{
    let ghost imps = imports@;
    let mut targets: Vec<(String, DependencyKind)> = Vec::new();
    let mut external: usize = 0;
    let mut unresolved: Vec<UnresolvedImport> = Vec::new();
    let mut i: usize = 0;
    assert(imps.take(0) =~= Seq::<ResolvedImport>::empty());
    assert(unresolved_values(unresolved@).to_set() =~= unresolved_set(imps.take(0)));
    while i < imports.len()
        invariant
            i <= imports.len(),
            imps == imports@,
            target_values(targets@) == fresh_targets(imps.take(i as int), known@),
            external == external_count(imps.take(i as int)),
            external <= i,
            unresolved_sorted(unresolved@),
            unresolved_values(unresolved@).to_set() == unresolved_set(imps.take(i as int)),
            unresolved.len() <= i,
        decreases imports.len() - i,
    {
        let x = &imports[i];
        let ghost pre = imps.take(i as int);
        let ghost cur = imps.take(i + 1);
        assert(cur.drop_last() =~= pre);
        assert(cur.last() == imps[i as int]);
        match &x.resolution {
            Resolution::Internal(t) => {
                let ghost tv = target_values(targets@);
                if known.contains(t.as_str()) {
                    let mut k: usize = 0;
                    let mut seen = false;
                    while k < targets.len()
                        invariant
                            k <= targets.len(),
                            !seen ==> forall|a: int| 0 <= a < k ==> (#[trigger] targets@[a]).0@ != t@,
                            seen ==> target_names(tv).contains(t@),
                            tv == target_values(targets@),
                        decreases targets.len() - k,
                    {
                        if str_eq(targets[k].0.as_str(), t.as_str()) {
                            assert(target_names(tv)[k as int] == t@);
                            seen = true;
                        }
                        k += 1;
                    }
                    if !seen {
                        proof {
                            assert(!target_names(tv).contains(t@)) by {
                                if target_names(tv).contains(t@) {
                                    let names = target_names(tv);
                                    let a = choose|a: int| 0 <= a < names.len() && names[a] == t@;
                                    assert(targets@[a].0@ == t@);
                                }
                            }
                        }
                        targets.push((owned(t.as_str()), x.kind));
                        assert(target_values(targets@) =~= tv.push((t@, x.kind)));
                    }
                }
                proof {
                    assert(!(cur.last().resolution@ == ResolutionView::External));
                    assert(unresolved_set(cur) =~= unresolved_set(pre)) by {
                        assert forall|v: (Seq<char>, DependencyKind, Seq<char>)| unresolved_set(cur).contains(v) implies unresolved_set(pre).contains(v) by {
                            let j = choose|j: int| 0 <= j < cur.len() && #[trigger] cur[j].resolution@ == ResolutionView::Unresolved(v.2)
                                && cur[j].specifier@ == v.0 && cur[j].kind == v.1;
                            assert(j < i);
                            assert(pre[j] == cur[j]);
                        }
                        assert forall|v: (Seq<char>, DependencyKind, Seq<char>)| unresolved_set(pre).contains(v) implies unresolved_set(cur).contains(v) by {
                            let j = choose|j: int| 0 <= j < pre.len() && #[trigger] pre[j].resolution@ == ResolutionView::Unresolved(v.2)
                                && pre[j].specifier@ == v.0 && pre[j].kind == v.1;
                            assert(cur[j] == pre[j]);
                        }
                    }
                }
            },
            Resolution::External => {
                let mut j: usize = 0;
                let mut repeated = false;
                while j < i
                    invariant
                        j <= i,
                        i < imports.len(),
                        imps == imports@,
                        x == imps[i as int],
                        imps[i as int].resolution@ == ResolutionView::External,
                        !repeated ==> forall|a: int| 0 <= a < j ==> !same_external(#[trigger] imps[a], imps[i as int]),
                        repeated ==> exists|a: int| 0 <= a < i && #[trigger] same_external(imps[a], imps[i as int]),
                    decreases i - j,
                {
                    let y = &imports[j];
                    let same_kind = kind_index(y.kind) == kind_index(x.kind);
                    proof {
                        if y.kind != x.kind {
                            assert(kind_rank(y.kind) != kind_rank(x.kind));
                        }
                    }
                    let is_external = match &y.resolution {
                        Resolution::External => true,
                        _ => false,
                    };
                    if is_external && same_kind && str_eq(y.specifier.as_str(), x.specifier.as_str()) {
                        assert(same_external(imps[j as int], imps[i as int]));
                        repeated = true;
                    }
                    j += 1;
                }
                proof {
                    assert forall|a: int| 0 <= a < cur.len() - 1 implies #[trigger] cur[a] == imps[a] by {}
                    if repeated {
                        let a = choose|a: int| 0 <= a < i && #[trigger] same_external(imps[a], imps[i as int]);
                        assert(same_external(cur[a], cur.last()));
                    } else {
                        assert(!exists|a: int| 0 <= a < cur.len() - 1 && #[trigger] same_external(cur[a], cur.last())) by {
                            if exists|a: int| 0 <= a < cur.len() - 1 && #[trigger] same_external(cur[a], cur.last()) {
                                let a = choose|a: int| 0 <= a < cur.len() - 1 && #[trigger] same_external(cur[a], cur.last());
                                assert(!same_external(imps[a], imps[i as int]));
                            }
                        }
                    }
                }
                if !repeated {
                    external = external + 1;
                }
                proof {
                    assert(unresolved_set(cur) =~= unresolved_set(pre)) by {
                        assert forall|v: (Seq<char>, DependencyKind, Seq<char>)| unresolved_set(cur).contains(v) implies unresolved_set(pre).contains(v) by {
                            let j = choose|j: int| 0 <= j < cur.len() && #[trigger] cur[j].resolution@ == ResolutionView::Unresolved(v.2)
                                && cur[j].specifier@ == v.0 && cur[j].kind == v.1;
                            assert(j < i);
                            assert(pre[j] == cur[j]);
                        }
                        assert forall|v: (Seq<char>, DependencyKind, Seq<char>)| unresolved_set(pre).contains(v) implies unresolved_set(cur).contains(v) by {
                            let j = choose|j: int| 0 <= j < pre.len() && #[trigger] pre[j].resolution@ == ResolutionView::Unresolved(v.2)
                                && pre[j].specifier@ == v.0 && pre[j].kind == v.1;
                            assert(cur[j] == pre[j]);
                        }
                    }
                }
            },
            Resolution::Unresolved(reason) => {
                let u = UnresolvedImport { specifier: owned(x.specifier.as_str()), kind: x.kind, reason: owned(reason) };
                let ghost before = unresolved_values(unresolved@).to_set();
                insert_unresolved(&mut unresolved, u);
                proof {
                    let v = unresolved_value(u);
                    assert(unresolved_set(cur) =~= unresolved_set(pre).insert(v)) by {
                        assert forall|w: (Seq<char>, DependencyKind, Seq<char>)| unresolved_set(cur).contains(w) implies unresolved_set(pre).insert(v).contains(w) by {
                            let j = choose|j: int| 0 <= j < cur.len() && #[trigger] cur[j].resolution@ == ResolutionView::Unresolved(w.2)
                                && cur[j].specifier@ == w.0 && cur[j].kind == w.1;
                            if j < i {
                                assert(pre[j] == cur[j]);
                            }
                        }
                        assert forall|w: (Seq<char>, DependencyKind, Seq<char>)| unresolved_set(pre).insert(v).contains(w) implies unresolved_set(cur).contains(w) by {
                            if w == v {
                                assert(cur[i as int].resolution@ == ResolutionView::Unresolved(w.2));
                            } else {
                                let j = choose|j: int| 0 <= j < pre.len() && #[trigger] pre[j].resolution@ == ResolutionView::Unresolved(w.2)
                                    && pre[j].specifier@ == w.0 && pre[j].kind == w.1;
                                assert(cur[j] == pre[j]);
                            }
                        }
                    }
                }
            },
        }
        i += 1;
    }
    assert(imps.take(imports.len() as int) =~= imps);
    ModuleLinks { targets, external, unresolved }
}

/// The most internal edges an analysis keeps.
pub const MAX_EDGES: usize = 100000;

/// The warning given once when edges beyond the limit are left out.
pub const EDGE_LIMIT: &'static str = "内部依赖边超过 100,000，后续边已省略；指标和影响结果可能低估。";

/// The imports found in a module, none when it could not be parsed.
pub open spec fn imports_of(x: Result<Extracted, String>) -> Seq<ResolvedImport> {
    match x {
        Ok(e) => e.imports@,
        Err(_) => Seq::empty(),
    }
}

/// The scanned targets module `i` asks for.
pub open spec fn wanted(xs: Seq<Result<Extracted, String>>, known: Set<Seq<char>>, i: int) -> Seq<(Seq<char>, DependencyKind)> {
    fresh_targets(imports_of(xs[i]), known)
}

/// How many scanned targets the modules before `k` ask for.
pub open spec fn wanted_before(xs: Seq<Result<Extracted, String>>, known: Set<Seq<char>>, k: int) -> nat
    decreases k,
{
    if k <= 0 {
        0
    } else {
        wanted_before(xs, known, k - 1) + wanted(xs, known, k - 1).len()
    }
}

/// The targets of module `i` that fit under the edge limit.
pub open spec fn kept(xs: Seq<Result<Extracted, String>>, known: Set<Seq<char>>, i: int) -> Seq<(Seq<char>, DependencyKind)> {
    let before = wanted_before(xs, known, i);
    let w = wanted(xs, known, i);
    if before >= MAX_EDGES {
        Seq::empty()
    } else if w.len() <= MAX_EDGES - before {
        w
    } else {
        w.take(MAX_EDGES - before)
    }
}

/// An edge as plain values: importer, dependency, kind.
pub open spec fn edge_value(e: DependencyEdge) -> (Seq<char>, Seq<char>, DependencyKind) {
    (e.source@, e.target@, e.kind)
}

/// The edges an analysis keeps: for each module, its targets under the limit.
pub open spec fn edge_set(ms: Seq<ModuleAnalysis>, xs: Seq<Result<Extracted, String>>, known: Set<Seq<char>>, k: int) -> Set<(Seq<char>, Seq<char>, DependencyKind)> {
    Set::new(
        |e: (Seq<char>, Seq<char>, DependencyKind)|
            exists|i: int, j: int|
                0 <= i < k && 0 <= j < kept(xs, known, i).len() && e == (ms[i].id@, #[trigger] kept(xs, known, i)[j].0, kept(
                    xs,
                    known,
                    i,
                )[j].1),
    )
}

/// Edges ordered by importer, then by dependency.
pub open spec fn edge_lt(a: (Seq<char>, Seq<char>, DependencyKind), b: (Seq<char>, Seq<char>, DependencyKind)) -> bool {
    seq_lt(a.0, b.0) || (a.0 == b.0 && seq_lt(a.1, b.1))
}

/// Each edge strictly before the next.
pub open spec fn edges_sorted(v: Seq<DependencyEdge>) -> bool {
    forall|a: int, b: int| 0 <= a < b < v.len() ==> edge_lt(edge_value(#[trigger] v[a]), edge_value(#[trigger] v[b]))
}

/// The number of distinct external imports of the modules before `k`,
/// counting only modules whose extension passes `js` when `js_only`.
pub open spec fn externals_before(ms: Seq<ModuleAnalysis>, xs: Seq<Result<Extracted, String>>, k: int, js_only: bool) -> nat
    decreases k,
{
    if k <= 0 {
        0
    } else {
        externals_before(ms, xs, k - 1, js_only) + if !js_only || js_extensions().contains(ms[k - 1].extension@) {
            external_count(imports_of(xs[k - 1]))
        } else {
            0
        }
    }
}

/// The warnings that linking module `i` gives, in order.
pub open spec fn link_messages(ms: Seq<ModuleAnalysis>, xs: Seq<Result<Extracted, String>>, known: Set<Seq<char>>, i: int) -> Seq<Seq<char>> {
    let limit = if wanted_before(xs, known, i) <= MAX_EDGES && wanted_before(xs, known, i + 1) > MAX_EDGES {
        seq![EDGE_LIMIT@]
    } else {
        Seq::empty()
    };
    match xs[i] {
        Err(e) => seq!["无法解析 "@ + ms[i].id@ + "："@ + e@],
        Ok(x) => (if x.has_errors {
            seq![ms[i].id@ + " 包含解析错误，依赖结果可能不完整。"@]
        } else {
            Seq::empty()
        }) + limit,
    }
}

/// The warnings after the given ones are pushed, in order.
pub open spec fn pushed(w: WarningsView, msgs: Seq<Seq<char>>) -> WarningsView
    decreases msgs.len(),
{
    if msgs.len() == 0 {
        w
    } else {
        let prev = pushed(w, msgs.drop_last());
        if prev.messages.len() < MAX_WARNINGS {
            WarningsView { messages: prev.messages.push(msgs.last()), suppressed: prev.suppressed }
        } else {
            WarningsView { messages: prev.messages, suppressed: prev.suppressed + 1 }
        }
    }
}

/// The warnings of linking the modules before `k`, in order.
pub open spec fn messages_before(ms: Seq<ModuleAnalysis>, xs: Seq<Result<Extracted, String>>, known: Set<Seq<char>>, k: int) -> Seq<Seq<char>>
    decreases k,
{
    if k <= 0 {
        Seq::empty()
    } else {
        messages_before(ms, xs, known, k - 1) + link_messages(ms, xs, known, k - 1)
    }
}

proof fn lemma_pushed_append(w: WarningsView, a: Seq<Seq<char>>, b: Seq<Seq<char>>)
    ensures
        pushed(w, a + b) == pushed(pushed(w, a), b),
    decreases b.len(),
{
    if b.len() == 0 {
        assert(a + b =~= a);
    } else {
        lemma_pushed_append(w, a, b.drop_last());
        assert((a + b).drop_last() =~= a + b.drop_last());
        assert((a + b).last() == b.last());
    }
}

/// Pushes a warning, keeping track of the pushed sequence.
fn push_warning(warnings: &mut Warnings, msg: String, Ghost(start): Ghost<WarningsView>, Ghost(msgs): Ghost<Seq<Seq<char>>>)
    requires
        old(warnings)@ == pushed(start, msgs),
        old(warnings)@.suppressed < usize::MAX,
    ensures
        final(warnings)@ == pushed(start, msgs.push(msg@)),
        final(warnings)@.suppressed <= old(warnings)@.suppressed + 1,
{
    let ghost m = msg@;
    warnings.push(msg);
    assert(msgs.push(m).drop_last() =~= msgs);
}

/// The concatenation of two texts.
fn joined(a: &str, b: &str) -> (r: String)
    ensures
        r@ == a@ + b@,
{
    let x = chars_of(a);
    let y = chars_of(b);
    string_of(&vec_concat(&x, &y))
}

/// Whether two character vectors are equal.
fn same_chars(a: &Vec<char>, b: &Vec<char>) -> (r: bool)
    ensures
        r == (a@ == b@),
{
    if a.len() != b.len() {
        return false;
    }
    let mut i: usize = 0;
    while i < a.len()
        invariant
            i <= a.len(),
            a.len() == b.len(),
            forall|k: int| 0 <= k < i ==> a@[k] == b@[k],
        decreases a.len() - i,
    {
        if a[i] != b[i] {
            return false;
        }
        i += 1;
    }
    assert(a@ =~= b@);
    true
}

/// Whether the extension belongs to JavaScript or TypeScript.
pub fn is_js_extension(ext: &str) -> (r: bool)
    ensures
        r == js_extensions().contains(ext@),
{
    let list = extension_list();
    let e = chars_of(ext);
    let mut i: usize = 0;
    while i < list.len()
        invariant
            i <= list.len(),
            views(list@) == js_extensions(),
            e@ == ext@,
            forall|k: int| 0 <= k < i ==> js_extensions()[k] != ext@,
        decreases list.len() - i,
    {
        assert(views(list@)[i as int] == list@[i as int]@);
        if same_chars(&list[i], &e) {
            assert(js_extensions()[i as int] == ext@);
            return true;
        }
        i += 1;
    }
    false
}

/// The target files of `fresh_targets` are pairwise distinct.
proof fn lemma_fresh_distinct(imps: Seq<ResolvedImport>, known: Set<Seq<char>>)
    ensures
        target_names(fresh_targets(imps, known)).no_duplicates(),
    decreases imps.len(),
{
    if imps.len() > 0 {
        lemma_fresh_distinct(imps.drop_last(), known);
        let prev = fresh_targets(imps.drop_last(), known);
        let cur = fresh_targets(imps, known);
        if cur != prev {
            let t = cur.last().0;
            assert(target_names(cur) =~= target_names(prev).push(t));
            assert forall|a: int, b: int| 0 <= a < b < target_names(cur).len() implies target_names(cur)[a] != target_names(cur)[b] by {
                if b == target_names(cur).len() - 1 {
                    assert(target_names(prev).contains(target_names(cur)[a])) by {
                        assert(target_names(prev)[a] == target_names(cur)[a]);
                    }
                } else {
                    assert(target_names(prev)[a] == target_names(cur)[a]);
                    assert(target_names(prev)[b] == target_names(cur)[b]);
                }
            }
        }
    }
}

/// Targets ordered by file name.
pub open spec fn targets_sorted(v: Seq<(Seq<char>, DependencyKind)>) -> bool {
    forall|a: int, b: int| 0 <= a < b < v.len() ==> seq_lt((#[trigger] v[a]).0, (#[trigger] v[b]).0)
}

/// The first `count` targets, ordered by file name.
fn first_targets_sorted(ts: &Vec<(String, DependencyKind)>, count: usize) -> (r: Vec<(String, DependencyKind)>)
    requires
        count <= ts.len(),
        target_names(target_values(ts@)).no_duplicates(),
    ensures
        targets_sorted(target_values(r@)),
        target_values(r@).to_set() == target_values(ts@).take(count as int).to_set(),
        r.len() == count,
{
    let ghost tv = target_values(ts@);
    let mut r: Vec<(String, DependencyKind)> = Vec::new();
    let mut i: usize = 0;
    assert(target_values(r@).to_set() =~= tv.take(0).to_set());
    while i < count
        invariant
            i <= count <= ts.len(),
            tv == target_values(ts@),
            target_names(tv).no_duplicates(),
            targets_sorted(target_values(r@)),
            target_values(r@).to_set() == tv.take(i as int).to_set(),
            r.len() == i,
        decreases count - i,
    {
        let name = owned(ts[i].0.as_str());
        let kind = ts[i].1;
        let ghost x = (name@, kind);
        assert(tv[i as int] == x);
        let mut p: usize = 0;
        while p < r.len() && str_lt(r[p].0.as_str(), name.as_str())
            invariant
                p <= r.len(),
                forall|a: int| 0 <= a < p ==> seq_lt((#[trigger] target_values(r@)[a]).0, name@),
            decreases r.len() - p,
        {
            assert(target_values(r@)[p as int].0 == r@[p as int].0@);
            p += 1;
        }
        proof {
            let rv = target_values(r@);
            assert forall|a: int| p <= a < rv.len() implies seq_lt(name@, (#[trigger] rv[a]).0) by {
                let q = rv[p as int];
                assert(q.0 == r@[p as int].0@);
                assert(rv.to_set().contains(q));
                assert(tv.take(i as int).contains(q));
                let j = choose|j: int| 0 <= j < i && tv.take(i as int)[j] == q;
                assert(target_names(tv)[j] == q.0);
                assert(target_names(tv)[i as int] == name@);
                assert(q.0 != name@);
                lemma_lt_total(q.0, name@);
                if a > p {
                    lemma_lt_transitive(name@, q.0, rv[a].0);
                }
            }
        }
        let ghost before = target_values(r@);
        r.insert(p, (name, kind));
        proof {
            let rv = target_values(r@);
            assert(rv =~= before.insert(p as int, x));
            assert forall|a: int, b: int| 0 <= a < b < rv.len() implies seq_lt((#[trigger] rv[a]).0, (#[trigger] rv[b]).0) by {
                if b < p {
                } else if b == p {
                } else if a < p {
                    assert(rv[b] == before[b - 1]);
                    lemma_lt_transitive(rv[a].0, name@, rv[b].0);
                } else if a == p {
                    assert(rv[b] == before[b - 1]);
                } else {
                    assert(rv[a] == before[a - 1]);
                    assert(rv[b] == before[b - 1]);
                }
            }
            let t0 = tv.take(i as int);
            let t1 = tv.take(i + 1);
            assert(t1 =~= t0.push(x));
            assert forall|w: (Seq<char>, DependencyKind)| rv.to_set().contains(w) <==> t1.to_set().contains(w) by {
                if rv.to_set().contains(w) {
                    let k = choose|k: int| 0 <= k < rv.len() && rv[k] == w;
                    if k < p {
                        assert(before[k] == w);
                        assert(before.to_set().contains(w));
                        let j = choose|j: int| 0 <= j < i && t0[j] == w;
                        assert(t1[j] == w);
                    } else if k > p {
                        assert(before[k - 1] == w);
                        assert(before.to_set().contains(w));
                        let j = choose|j: int| 0 <= j < i && t0[j] == w;
                        assert(t1[j] == w);
                    } else {
                        assert(t1[i as int] == w);
                    }
                }
                if t1.to_set().contains(w) {
                    let j = choose|j: int| 0 <= j < i + 1 && t1[j] == w;
                    if j < i {
                        assert(t0[j] == w);
                        assert(before.to_set().contains(w));
                        let k = choose|k: int| 0 <= k < before.len() && before[k] == w;
                        if k < p {
                            assert(rv[k] == w);
                        } else {
                            assert(rv[k + 1] == w);
                        }
                    } else {
                        assert(rv[p as int] == w);
                    }
                }
            }
            assert(rv.to_set() =~= tv.take(i + 1).to_set());
        }
        i += 1;
    }
    r
}

/// The edges from `source` to each listed target, as plain values.
pub open spec fn edges_from(source: Seq<char>, list: Seq<(Seq<char>, DependencyKind)>) -> Seq<(Seq<char>, Seq<char>, DependencyKind)> {
    list.map_values(|p: (Seq<char>, DependencyKind)| (source, p.0, p.1))
}

/// The edges as plain values.
pub open spec fn edge_values(v: Seq<DependencyEdge>) -> Seq<(Seq<char>, Seq<char>, DependencyKind)> {
    v.map_values(|e: DependencyEdge| edge_value(e))
}

/// Appends an edge from `source` to each listed target.
fn append_edges(edges: &mut Vec<DependencyEdge>, source: &String, list: &Vec<(String, DependencyKind)>)
    ensures
        edge_values(final(edges)@) == edge_values(old(edges)@) + edges_from(source@, target_values(list@)),
{
    let mut i: usize = 0;
    while i < list.len()
        invariant
            i <= list.len(),
            edge_values(edges@) == edge_values(old(edges)@) + edges_from(source@, target_values(list@)).take(i as int),
        decreases list.len() - i,
    {
        let ghost before = edge_values(edges@);
        edges.push(DependencyEdge { source: owned(source.as_str()), target: owned(list[i].0.as_str()), kind: list[i].1 });
        proof {
            let e = edges_from(source@, target_values(list@));
            assert(e[i as int] == (source@, list@[i as int].0@, list@[i as int].1));
            assert(edge_values(edges@) =~= before.push(e[i as int]));
            assert(e.take(i + 1) =~= e.take(i as int).push(e[i as int]));
        }
        i += 1;
    }
    assert(edges_from(source@, target_values(list@)).take(list.len() as int) =~= edges_from(source@, target_values(list@)));
}

/// The module identifiers strictly increase.
pub open spec fn ids_sorted(ms: Seq<ModuleAnalysis>) -> bool {
    forall|a: int, b: int| 0 <= a < b < ms.len() ==> seq_lt((#[trigger] ms[a]).id@, (#[trigger] ms[b]).id@)
}

/// What linking does to one module: only its unresolved imports change, to the
/// sorted distinct unresolved imports when it was parsed.
pub open spec fn linked_module(o: ModuleAnalysis, x: Result<Extracted, String>, m: ModuleAnalysis) -> bool {
    &&& m == ModuleAnalysis { unresolved_imports: m.unresolved_imports, ..o }
    &&& match x {
        Err(_) => m.unresolved_imports == o.unresolved_imports,
        Ok(e) => unresolved_sorted(m.unresolved_imports@) && unresolved_values(m.unresolved_imports@).to_set()
            == unresolved_set(e.imports@) && m.unresolved_imports.len() <= e.imports.len(),
    }
}

/// What linking all modules gives.
pub struct Links {
    /// The internal edges, sorted by importer and dependency.
    pub edges: Vec<DependencyEdge>,
    /// How many distinct imports lead outside the project.
    pub external: usize,
    /// How many of them are imports of JavaScript or TypeScript modules.
    pub js_external: usize,
}

proof fn lemma_externals_monotone(ms: Seq<ModuleAnalysis>, xs: Seq<Result<Extracted, String>>, a: int, b: int)
    requires
        a <= b,
    ensures
        externals_before(ms, xs, a, true) <= externals_before(ms, xs, a, false),
        externals_before(ms, xs, a, false) <= externals_before(ms, xs, b, false),
    decreases b - a, a,
{
    if a < b {
        lemma_externals_monotone(ms, xs, a, b - 1);
    } else if a > 0 {
        lemma_externals_monotone(ms, xs, a - 1, a - 1);
    }
}

/// Links every module's imports: the kept internal edges, the external
/// counts, the sorted unresolved imports and the warnings, in module order.
pub fn link_modules(
    modules: &mut Vec<ModuleAnalysis>,
    extracted: &Vec<Result<Extracted, String>>,
    known: &FileSet,
    warnings: &mut Warnings,
) -> (r: Links)
    requires
        old(modules).len() == extracted.len(),
        ids_sorted(old(modules)@),
        old(warnings)@.suppressed + 2 * extracted.len() < usize::MAX,
        externals_before(old(modules)@, extracted@, extracted.len() as int, false) <= usize::MAX,
    ensures
        final(modules).len() == old(modules).len(),
        forall|i: int| 0 <= i < old(modules).len() ==> linked_module(old(modules)@[i], extracted@[i], #[trigger] final(modules)@[i]),
        edges_sorted(r.edges@),
        edge_values(r.edges@).to_set() == edge_set(old(modules)@, extracted@, known@, extracted.len() as int),
        r.edges.len() == if wanted_before(extracted@, known@, extracted.len() as int) < MAX_EDGES {
            wanted_before(extracted@, known@, extracted.len() as int)
        } else {
            MAX_EDGES as nat
        },
        r.external == externals_before(old(modules)@, extracted@, extracted.len() as int, false),
        r.js_external == externals_before(old(modules)@, extracted@, extracted.len() as int, true),
        final(warnings)@ == pushed(old(warnings)@, messages_before(old(modules)@, extracted@, known@, extracted.len() as int)),
        final(warnings)@.suppressed <= old(warnings)@.suppressed + 2 * extracted.len(),
{
    let ghost ms = modules@;
    let ghost xs = extracted@;
    let ghost w0 = warnings@;
    let n = extracted.len();
    let mut edges: Vec<DependencyEdge> = Vec::new();
    let mut external: usize = 0;
    let mut js_external: usize = 0;
    let mut crossed = false;
    let mut k: usize = 0;
    assert(edge_values(edges@).to_set() =~= edge_set(ms, xs, known@, 0));
    proof {
        lemma_externals_monotone(ms, xs, 0, n as int);
    }
    while k < n
        invariant
            k <= n,
            n == xs.len(),
            ms.len() == n,
            xs == extracted@,
            modules.len() == n,
            ids_sorted(ms),
            w0.suppressed + 2 * n < usize::MAX,
            externals_before(ms, xs, n as int, false) <= usize::MAX,
            forall|i: int| 0 <= i < k ==> linked_module(ms[i], xs[i], #[trigger] modules@[i]),
            forall|i: int| k <= i < n ==> #[trigger] modules@[i] == ms[i],
            edges_sorted(edges@),
            edge_values(edges@).to_set() == edge_set(ms, xs, known@, k as int),
            forall|a: int| 0 <= a < edges.len() ==> exists|i: int| 0 <= i < k && (#[trigger] edges@[a]).source@ == ms[i].id@,
            crossed == (wanted_before(xs, known@, k as int) > MAX_EDGES),
            edges.len() == if crossed { MAX_EDGES as nat } else { wanted_before(xs, known@, k as int) },
            external == externals_before(ms, xs, k as int, false),
            js_external == externals_before(ms, xs, k as int, true),
            warnings@ == pushed(w0, messages_before(ms, xs, known@, k as int)),
            warnings@.suppressed <= w0.suppressed + 2 * k,
        decreases n - k,
    {
        proof {
            lemma_externals_monotone(ms, xs, k + 1, n as int);
        }
        let ghost msgs = messages_before(ms, xs, known@, k as int);
        let id = owned(modules[k].id.as_str());
        assert(id@ == ms[k as int].id@);
        match &extracted[k] {
            Err(e) => {
                let msg = joined(joined(joined("无法解析 ", id.as_str()).as_str(), "：").as_str(), e.as_str());
                push_warning(warnings, msg, Ghost(w0), Ghost(msgs));
                proof {
                    assert(link_messages(ms, xs, known@, k as int) =~= seq![msg@]);
                    assert(messages_before(ms, xs, known@, k + 1) == msgs + seq![msg@]);
                    assert(msgs + seq![msg@] =~= msgs.push(msg@));
                    assert(wanted(xs, known@, k as int) =~= Seq::<(Seq<char>, DependencyKind)>::empty());
                    assert(wanted_before(xs, known@, k + 1) == wanted_before(xs, known@, k as int));
                    assert(kept(xs, known@, k as int).len() == 0);
                    assert forall|e: (Seq<char>, Seq<char>, DependencyKind)| edge_set(ms, xs, known@, k + 1).contains(e) implies edge_set(ms, xs, known@, k as int).contains(e) by {
                        let (i, j) = choose|i: int, j: int|
                            0 <= i < k + 1 && 0 <= j < kept(xs, known@, i).len() && e == (ms[i].id@, #[trigger] kept(xs, known@, i)[j].0, kept(
                                xs,
                                known@,
                                i,
                            )[j].1);
                    }
                    assert(edge_set(ms, xs, known@, k + 1) =~= edge_set(ms, xs, known@, k as int));
                    assert(externals_before(ms, xs, k + 1, false) == external);
                    assert(externals_before(ms, xs, k + 1, true) == js_external);
                }
            },
            Ok(x) => {
                let ghost mark = warnings@;
                if x.has_errors {
                    let msg = joined(id.as_str(), " 包含解析错误，依赖结果可能不完整。");
                    push_warning(warnings, msg, Ghost(w0), Ghost(msgs));
                }
                let ghost head = if x.has_errors {
                    seq![ms[k as int].id@ + " 包含解析错误，依赖结果可能不完整。"@]
                } else {
                    Seq::<Seq<char>>::empty()
                };
                assert(warnings@ == pushed(w0, msgs + head)) by {
                    if !x.has_errors {
                        assert(msgs + head =~= msgs);
                    } else {
                        assert(msgs + head =~= msgs.push(head[0]));
                    }
                }
                let links = module_links(&x.imports, known);
                proof {
                    assert(imports_of(xs[k as int]) == x.imports@);
                    lemma_fresh_distinct(x.imports@, known@);
                }
                let count = links.targets.len();
                let room = MAX_EDGES - edges.len();
                let take = if count <= room { count } else { room };
                if !crossed && count > room {
                    push_warning(warnings, owned(EDGE_LIMIT), Ghost(w0), Ghost(msgs + head));
                }
                proof {
                    let limit = if wanted_before(xs, known@, k as int) <= MAX_EDGES && wanted_before(xs, known@, k + 1) > MAX_EDGES {
                        seq![EDGE_LIMIT@]
                    } else {
                        Seq::<Seq<char>>::empty()
                    };
                    assert(link_messages(ms, xs, known@, k as int) == head + limit);
                    assert(messages_before(ms, xs, known@, k + 1) == msgs + (head + limit));
                    if !crossed && count > room {
                        assert(msgs + (head + limit) =~= (msgs + head).push(EDGE_LIMIT@));
                    } else {
                        assert(msgs + (head + limit) =~= msgs + head);
                    }
                }
                crossed = crossed || count > room;
                let sorted = first_targets_sorted(&links.targets, take);
                let ghost before_edges = edge_values(edges@);
                append_edges(&mut edges, &id, &sorted);
                proof {
                    let kp = kept(xs, known@, k as int);
                    assert(kp == target_values(links.targets@).take(take as int)) by {
                        if take == count {
                            assert(target_values(links.targets@).take(count as int) =~= target_values(links.targets@));
                        }
                    }
                    let added = edges_from(id@, target_values(sorted@));
                    let ev = edge_values(edges@);
                    assert(ev == before_edges + added);
                    assert(ev.len() == edges@.len());
                    assert(ev.len() == before_edges.len() + added.len());
                    assert forall|c: int| before_edges.len() <= c < ev.len() implies #[trigger] ev[c] == added[c - before_edges.len()] by {}
                    assert forall|a: int, b: int| 0 <= a < b < edges@.len() implies edge_lt(edge_value(#[trigger] edges@[a]), edge_value(#[trigger] edges@[b])) by {
                        assert(ev[a] == edge_value(edges@[a]));
                        assert(ev[b] == edge_value(edges@[b]));
                        if b < before_edges.len() {
                        } else if a < before_edges.len() {
                            assert(ev[b] == added[b - before_edges.len()]);
                            assert(ev[b].0 == id@);
                            let i = choose|i: int| 0 <= i < k && (#[trigger] edges@[a]).source@ == ms[i].id@;
                        } else {
                            assert(ev[a] == added[a - before_edges.len()]);
                            assert(ev[b] == added[b - before_edges.len()]);
                        }
                    }
                    assert forall|a: int| 0 <= a < edges.len() implies exists|i: int| 0 <= i < k + 1 && (#[trigger] edges@[a]).source@ == ms[i].id@ by {
                        assert(ev[a] == edge_value(edges@[a]));
                        if a >= before_edges.len() {
                            assert(ev[a] == added[a - before_edges.len()]);
                            assert(edges@[a].source@ == ms[k as int].id@);
                        } else {
                            let i = choose|i: int| 0 <= i < k && (#[trigger] edges@[a]).source@ == ms[i].id@;
                        }
                    }
                    assert forall|e: (Seq<char>, Seq<char>, DependencyKind)| ev.to_set().contains(e) <==> #[trigger] edge_set(ms, xs, known@, k + 1).contains(e) by {
                        if ev.to_set().contains(e) {
                            let a = choose|a: int| 0 <= a < ev.len() && ev[a] == e;
                            if a < before_edges.len() {
                                assert(before_edges[a] == e);
                                assert(before_edges.to_set().contains(e));
                                let (i, j) = choose|i: int, j: int|
                                    0 <= i < k && 0 <= j < kept(xs, known@, i).len() && e == (ms[i].id@, #[trigger] kept(xs, known@, i)[j].0, kept(
                                        xs,
                                        known@,
                                        i,
                                    )[j].1);
                            } else {
                                let q = target_values(sorted@)[a - before_edges.len()];
                                assert(ev[a] == (id@, q.0, q.1));
                                assert(target_values(sorted@).to_set().contains(q));
                                assert(kp.to_set().contains(q));
                                let j = choose|j: int| 0 <= j < kp.len() && kp[j] == q;
                                assert(e == (ms[k as int].id@, kept(xs, known@, k as int)[j].0, kept(xs, known@, k as int)[j].1));
                            }
                        }
                        if edge_set(ms, xs, known@, k + 1).contains(e) {
                            let (i, j) = choose|i: int, j: int|
                                0 <= i < k + 1 && 0 <= j < kept(xs, known@, i).len() && e == (ms[i].id@, #[trigger] kept(xs, known@, i)[j].0, kept(
                                    xs,
                                    known@,
                                    i,
                                )[j].1);
                            if i < k {
                                assert(edge_set(ms, xs, known@, k as int).contains(e));
                                assert(before_edges.to_set().contains(e));
                                let a = choose|a: int| 0 <= a < before_edges.len() && before_edges[a] == e;
                                assert(ev[a] == e);
                            } else {
                                let q = kp[j];
                                assert(kp.to_set().contains(q));
                                assert(target_values(sorted@).to_set().contains(q));
                                let b = choose|b: int| 0 <= b < target_values(sorted@).len() && target_values(sorted@)[b] == q;
                                assert(ev[before_edges.len() + b] == added[b]);
                                assert(ev[before_edges.len() + b] == e);
                            }
                        }
                    }
                    assert(ev.to_set() =~= edge_set(ms, xs, known@, k + 1));
                }
                let js = is_js_extension(modules[k].extension.as_str());
                proof {
                    assert(modules@[k as int] == ms[k as int]);
                    assert(externals_before(ms, xs, k + 1, false) == external + links.external);
                }
                external = external + links.external;
                if js {
                    js_external = js_external + links.external;
                }
                let ghost before_modules = modules@;
                modules[k].unresolved_imports = links.unresolved;
                proof {
                    assert forall|i: int| 0 <= i < n && i != k implies #[trigger] modules@[i] == before_modules[i] by {}
                }
            },
        }
        k += 1;
    }
    Links { edges, external, js_external }
}

/// `char::is_whitespace`: the characters with the Unicode `White_Space` property.
pub open spec fn white_space(c: char) -> bool {
    ||| ('\u{9}' <= c && c <= '\u{d}')
    ||| c == ' '
    ||| c == '\u{85}'
    ||| c == '\u{a0}'
    ||| c == '\u{1680}'
    ||| ('\u{2000}' <= c && c <= '\u{200a}')
    ||| c == '\u{2028}'
    ||| c == '\u{2029}'
    ||| c == '\u{202f}'
    ||| c == '\u{205f}'
    ||| c == '\u{3000}'
}

/// Whether `c` is white space.
pub(crate) fn is_white(c: char) -> (r: bool)
    ensures
        r == white_space(c),
{
    ('\u{9}' <= c && c <= '\u{d}') || c == ' ' || c == '\u{85}' || c == '\u{a0}' || c == '\u{1680}'
        || ('\u{2000}' <= c && c <= '\u{200a}') || c == '\u{2028}' || c == '\u{2029}' || c == '\u{202f}'
        || c == '\u{205f}' || c == '\u{3000}'
}

/// A line holding only white space.
pub open spec fn blank(line: Seq<char>) -> bool {
    forall|k: int| 0 <= k < line.len() ==> white_space(#[trigger] line[k])
}

/// How many of the lines are not blank.
pub open spec fn nonblank_count(lines: Seq<Seq<char>>) -> nat
    decreases lines.len(),
{
    if lines.len() == 0 {
        0
    } else {
        nonblank_count(lines.drop_last()) + if blank(lines.last()) {
            0nat
        } else {
            1nat
        }
    }
}

/// The non-blank physical lines of a source text, comments included: a
/// transparent size measure, not executable lines of code.
pub open spec fn lines_of_code(source: Seq<char>) -> nat {
    nonblank_count(split_on(source, '\n'))
}

/// Counts the non-blank lines of a text.
pub fn count_lines(source: &str) -> (r: usize)
    ensures
        r == lines_of_code(source@),
{
    let cs = chars_of(source);
    let mut done: usize = 0;
    let mut current_blank = true;
    let mut i: usize = 0;
    proof {
        assert(cs@.take(0) =~= Seq::<char>::empty());
        assert(split_on(Seq::<char>::empty(), '\n') =~= seq![Seq::<char>::empty()]) by {
            assert(last_index(Seq::<char>::empty(), '\n') is None);
        }
        assert(seq![Seq::<char>::empty()].drop_last() =~= Seq::<Seq<char>>::empty());
    }
    while i < cs.len()
        invariant
            i <= cs.len(),
            cs@ == source@,
            done + (if current_blank { 0int } else { 1int }) <= i,
            split_on(cs@.take(i as int), '\n').len() >= 1,
            current_blank == blank(split_on(cs@.take(i as int), '\n').last()),
            done == nonblank_count(split_on(cs@.take(i as int), '\n').drop_last()),
        decreases cs.len() - i,
    {
        let c = cs[i];
        let ghost pre = cs@.take(i as int);
        let ghost parts = split_on(pre, '\n');
        proof {
            assert(cs@.take(i + 1) =~= pre.push(c));
            lemma_split_push(pre, c, '\n');
        }
        if c == '\n' {
            if !current_blank {
                done = done + 1;
            }
            current_blank = true;
            proof {
                let now = parts.push(Seq::<char>::empty());
                assert(now.drop_last() =~= parts);
                assert(blank(now.last()));
            }
        } else {
            let w = is_white(c);
            proof {
                let last = parts.last();
                let now = parts.update(parts.len() - 1, last.push(c));
                assert(now.drop_last() =~= parts.drop_last());
                assert(now.last() == last.push(c));
                assert(blank(last.push(c)) == (blank(last) && white_space(c))) by {
                    if blank(last) && white_space(c) {
                        assert forall|k: int| 0 <= k < last.push(c).len() implies white_space(#[trigger] last.push(c)[k]) by {
                            if k < last.len() {
                                assert(last.push(c)[k] == last[k]);
                            }
                        }
                    }
                    if blank(last.push(c)) {
                        assert(white_space(last.push(c)[last.len() as int]));
                        assert forall|k: int| 0 <= k < last.len() implies white_space(#[trigger] last[k]) by {
                            assert(last.push(c)[k] == last[k]);
                        }
                    }
                }
            }
            if !w {
                current_blank = false;
            }
        }
        i += 1;
    }
    proof {
        assert(cs@.take(cs.len() as int) =~= cs@);
        let parts = split_on(cs@, '\n');
        assert(parts.drop_last().push(parts.last()) =~= parts);
    }
    if current_blank {
        done
    } else {
        done + 1
    }
}

/// The text after the last `.` of a file name, unless that dot opens the name.
pub open spec fn extension_of(file_name: Seq<char>) -> Seq<char> {
    match last_index(file_name, '.') {
        Some(i) => if i > 0 {
            file_name.subrange(i + 1, file_name.len() as int)
        } else {
            Seq::empty()
        },
        None => Seq::empty(),
    }
}

/// The directory of a module: the path before its last `/`, or `.` at the root.
pub open spec fn directory_of(id: Seq<char>) -> Seq<char> {
    match last_index(id, '/') {
        Some(_) => before_last(id, '/'),
        None => seq!['.'],
    }
}

/// A module record for the source file `id` with the given text, before any linking.
pub open spec fn new_module_spec(id: Seq<char>, source: Seq<char>, m: ModuleAnalysis) -> bool {
    &&& m.id@ == id
    &&& m.relative_path@ == id
    &&& m.file_name@ == after_last(id, '/')
    &&& m.extension@ == ascii_lower(extension_of(after_last(id, '/')))
    &&& m.directory@ == directory_of(id)
    &&& m.lines_of_code == lines_of_code(source)
    &&& m.imports@.len() == 0
    &&& m.imported_by@.len() == 0
    &&& m.fan_in == 0
    &&& m.fan_out == 0
    &&& m.dependency_depth == 0
    &&& m.blast_radius == 0
    &&& m.cycle_id is None
    &&& !m.is_entry_like
    &&& m.unresolved_imports@.len() == 0
}

/// The record of a scanned source file with identifier `id` and text `source`.
pub fn new_module(id: &str, source: &str) -> (m: ModuleAnalysis)
    ensures
        new_module_spec(id@, source@, m),
{
    let cs = chars_of(id);
    let name = vec_after_last(&cs, '/');
    let directory = match vec_last_index(&cs, '/') {
        Some(_) => vec_before_last(&cs, '/'),
        None => vec!['.'],
    };
    let extension = match vec_last_index(&name, '.') {
        Some(i) => if i > 0 {
            proof {
                crate::text_util::lemma_last_index(name@, '.');
            }
            vec_slice(&name, i + 1, name.len())
        } else {
            Vec::new()
        },
        None => Vec::new(),
    };
    proof {
        assert(directory@ == directory_of(id@)) by {
            if last_index(cs@, '/') is None {
                assert(directory@ =~= seq!['.']);
            }
        }
        assert(extension@ == extension_of(name@)) by {
            if let Some(i) = last_index(name@, '.') {
                if i <= 0 {
                    assert(extension@ =~= Seq::<char>::empty());
                }
            } else {
                assert(extension@ =~= Seq::<char>::empty());
            }
        }
    }
    let ext_text = string_of(&extension);
    ModuleAnalysis {
        id: owned(id),
        relative_path: owned(id),
        file_name: string_of(&name),
        extension: crate::scanner::to_ascii_lower(ext_text.as_str()),
        directory: string_of(&directory),
        lines_of_code: count_lines(source),
        imports: Vec::new(),
        imported_by: Vec::new(),
        fan_in: 0,
        fan_out: 0,
        dependency_depth: 0,
        blast_radius: 0,
        cycle_id: None,
        is_entry_like: false,
        unresolved_imports: Vec::new(),
    }
}

/// Warns that the configuration files read were cut off at their size limits.
pub const CONFIG_LIMIT: &'static str = "项目配置超过读取限制（单文件 1 MiB、合计 16 MiB），部分模块路径可能无法解析。";
/// Notes that package imports are treated as external.
pub const PACKAGE_IMPORTS: &'static str = "包名导入视为外部依赖；tsconfig paths、工作区包和 package.json exports 不在本版解析范围。";
/// Warns that no supported source file was found.
pub const NO_SOURCES: &'static str = "没有找到支持的源码文件。支持 Java、Python、C/C++、Go、Rust、C# 和 JS/TS。";
/// What the C/C++ analysis does and does not do.
pub const C_FAMILY_NOTE: &'static str = "C/C++ 分析静态包含和项目根 compile_commands.json 中的显式搜索路径；不运行编译器或预处理器，不继承头文件编译配置，条件分支均保留。无法确定的包含会标为未解析。";
/// What the Go analysis does and does not do.
pub const GO_NOTE: &'static str = "Go 包导入展开为本地包的生产源码文件；不执行 go 命令，也不应用构建标签、平台筛选或 replace 指令。";
/// What the Rust analysis does and does not do.
pub const RUST_NOTE: &'static str = "Rust 分析静态模块声明和引用；不展开宏、不执行构建脚本、不应用 cfg 条件或非标准 Cargo 目标配置。";
/// What the Java and C# analysis does and does not do.
pub const JVM_NOTE: &'static str = "Java/C# 根据源码声明和类型引用匹配本地文件；不运行构建工具，不解析外部包、反射或生成代码，重复或不明确的类型不会猜测连线。";

/// The extensions of C and C++ sources and headers.
pub open spec fn c_family_extensions() -> Seq<Seq<char>> {
    seq![
        seq!['c'], seq!['h'], seq!['c', 'c'], seq!['c', 'p', 'p'], seq!['c', 'x', 'x'],
        seq!['h', 'p', 'p'], seq!['h', 'h'], seq!['h', 'x', 'x'], seq!['i', 'n', 'l'], seq!['i', 'p', 'p'],
    ]
}

/// Some module has one of the given extensions.
pub open spec fn any_extension(ms: Seq<ModuleAnalysis>, exts: Seq<Seq<char>>) -> bool {
    exists|i: int| 0 <= i < ms.len() && exts.contains(#[trigger] ms[i].extension@)
}

/// The closing notes of an analysis, in order.
pub open spec fn closing_messages(ms: Seq<ModuleAnalysis>, config_limited: bool, js_external: nat) -> Seq<Seq<char>> {
    (if config_limited { seq![CONFIG_LIMIT@] } else { Seq::empty() })
    + (if js_external > 0 { seq![PACKAGE_IMPORTS@] } else { Seq::empty() })
    + (if ms.len() == 0 { seq![NO_SOURCES@] } else { Seq::empty() })
    + (if any_extension(ms, c_family_extensions()) { seq![C_FAMILY_NOTE@] } else { Seq::empty() })
    + (if any_extension(ms, seq![seq!['g', 'o']]) { seq![GO_NOTE@] } else { Seq::empty() })
    + (if any_extension(ms, seq![seq!['r', 's']]) { seq![RUST_NOTE@] } else { Seq::empty() })
    + (if any_extension(ms, seq![seq!['j', 'a', 'v', 'a'], seq!['c', 's']]) { seq![JVM_NOTE@] } else { Seq::empty() })
}

/// The warnings shown for a finished set: the kept ones and the count line.
pub open spec fn finished(w: WarningsView) -> Seq<Seq<char>> {
    if w.suppressed == 0 {
        w.messages
    } else {
        w.messages.push(omitted_line(w.suppressed))
    }
}

/// How many imports the modules before `k` have.
pub open spec fn imports_total(xs: Seq<Result<Extracted, String>>, k: int) -> nat
    decreases k,
{
    if k <= 0 {
        0
    } else {
        imports_total(xs, k - 1) + imports_of(xs[k - 1]).len()
    }
}

/// How many unresolved imports the modules before `k` list.
pub open spec fn unresolved_total(ms: Seq<ModuleAnalysis>, k: int) -> nat
    decreases k,
{
    if k <= 0 {
        0
    } else {
        unresolved_total(ms, k - 1) + ms[k - 1].unresolved_imports@.len()
    }
}

/// The analysis of a repository, without the stability figures.
pub struct RepositoryAnalysis {
    pub repository_name: String,
    pub root_display_name: String,
    pub total_modules: usize,
    pub total_edges: usize,
    pub unresolved_count: usize,
    pub external_count: usize,
    pub cycle_count: usize,
    pub modules: Vec<ModuleAnalysis>,
    pub edges: Vec<DependencyEdge>,
    pub critical_modules: Vec<String>,
    pub warnings: Vec<String>,
}

/// Whether the extension is one of the listed ones.
fn extension_in(ext: &str, list: &Vec<Vec<char>>) -> (r: bool)
    ensures
        r == views(list@).contains(ext@),
{
    let e = chars_of(ext);
    let mut i: usize = 0;
    while i < list.len()
        invariant
            i <= list.len(),
            e@ == ext@,
            forall|k: int| 0 <= k < i ==> views(list@)[k] != ext@,
        decreases list.len() - i,
    {
        assert(views(list@)[i as int] == list@[i as int]@);
        if same_chars(&list[i], &e) {
            return true;
        }
        i += 1;
    }
    false
}

/// Whether some module has one of the listed extensions.
fn has_extension(modules: &Vec<ModuleAnalysis>, list: &Vec<Vec<char>>) -> (r: bool)
    ensures
        r == any_extension(modules@, views(list@)),
{
    let mut i: usize = 0;
    while i < modules.len()
        invariant
            i <= modules.len(),
            forall|k: int| 0 <= k < i ==> !views(list@).contains(#[trigger] modules@[k].extension@),
        decreases modules.len() - i,
    {
        if extension_in(modules[i].extension.as_str(), list) {
            return true;
        }
        i += 1;
    }
    false
}

/// Every kept target is a scanned file.
proof fn lemma_fresh_known(imps: Seq<ResolvedImport>, known: Set<Seq<char>>)
    ensures
        forall|j: int| 0 <= j < fresh_targets(imps, known).len() ==> known.contains(#[trigger] fresh_targets(imps, known)[j].0),
    decreases imps.len(),
{
    if imps.len() > 0 {
        lemma_fresh_known(imps.drop_last(), known);
        let prev = fresh_targets(imps.drop_last(), known);
        let cur = fresh_targets(imps, known);
        assert forall|j: int| 0 <= j < cur.len() implies known.contains(#[trigger] cur[j].0) by {
            if j < prev.len() && (cur == prev || cur == prev.push(cur.last())) {
                assert(cur[j] == prev[j]);
            }
        }
    }
}

fn c_family_list() -> (r: Vec<Vec<char>>)
    ensures
        views(r@) == c_family_extensions(),
{
    let r = vec![
        vec!['c'], vec!['h'], vec!['c', 'c'], vec!['c', 'p', 'p'], vec!['c', 'x', 'x'],
        vec!['h', 'p', 'p'], vec!['h', 'h'], vec!['h', 'x', 'x'], vec!['i', 'n', 'l'], vec!['i', 'p', 'p'],
    ];
    assert(r@[0]@ =~= seq!['c']);
    assert(r@[1]@ =~= seq!['h']);
    assert(r@[2]@ =~= seq!['c', 'c']);
    assert(r@[3]@ =~= seq!['c', 'p', 'p']);
    assert(r@[4]@ =~= seq!['c', 'x', 'x']);
    assert(r@[5]@ =~= seq!['h', 'p', 'p']);
    assert(r@[6]@ =~= seq!['h', 'h']);
    assert(r@[7]@ =~= seq!['h', 'x', 'x']);
    assert(r@[8]@ =~= seq!['i', 'n', 'l']);
    assert(r@[9]@ =~= seq!['i', 'p', 'p']);
    assert(views(r@) =~= c_family_extensions());
    r
}

fn one_list(a: Vec<char>) -> (r: Vec<Vec<char>>)
    ensures
        views(r@) == seq![a@],
{
    let r = vec![a];
    assert(views(r@) =~= seq![r@[0]@]);
    r
}

fn jvm_list() -> (r: Vec<Vec<char>>)
    ensures
        views(r@) == seq![seq!['j', 'a', 'v', 'a'], seq!['c', 's']],
{
    let r = vec![vec!['j', 'a', 'v', 'a'], vec!['c', 's']];
    assert(views(r@) =~= seq![seq!['j', 'a', 'v', 'a'], seq!['c', 's']]);
    r
}

/// Pushes the closing notes of an analysis.
fn closing_notes(warnings: &mut Warnings, modules: &Vec<ModuleAnalysis>, config_limited: bool, js_external: usize)
    requires
        old(warnings)@.suppressed + 8 < usize::MAX,
    ensures
        final(warnings)@ == pushed(old(warnings)@, closing_messages(modules@, config_limited, js_external as nat)),
{
    let ghost w0 = old(warnings)@;
    let ghost mut msgs = Seq::<Seq<char>>::empty();
    assert(pushed(w0, msgs) == w0);
    if config_limited {
        push_warning(warnings, owned(CONFIG_LIMIT), Ghost(w0), Ghost(msgs));
        proof { msgs = msgs.push(CONFIG_LIMIT@); }
    }
    if js_external > 0 {
        push_warning(warnings, owned(PACKAGE_IMPORTS), Ghost(w0), Ghost(msgs));
        proof { msgs = msgs.push(PACKAGE_IMPORTS@); }
    }
    if modules.len() == 0 {
        push_warning(warnings, owned(NO_SOURCES), Ghost(w0), Ghost(msgs));
        proof { msgs = msgs.push(NO_SOURCES@); }
    }
    if has_extension(modules, &c_family_list()) {
        push_warning(warnings, owned(C_FAMILY_NOTE), Ghost(w0), Ghost(msgs));
        proof { msgs = msgs.push(C_FAMILY_NOTE@); }
    }
    if has_extension(modules, &one_list(vec!['g', 'o'])) {
        push_warning(warnings, owned(GO_NOTE), Ghost(w0), Ghost(msgs));
        proof { msgs = msgs.push(GO_NOTE@); }
    }
    if has_extension(modules, &one_list(vec!['r', 's'])) {
        push_warning(warnings, owned(RUST_NOTE), Ghost(w0), Ghost(msgs));
        proof { msgs = msgs.push(RUST_NOTE@); }
    }
    if has_extension(modules, &jvm_list()) {
        push_warning(warnings, owned(JVM_NOTE), Ghost(w0), Ghost(msgs));
        proof { msgs = msgs.push(JVM_NOTE@); }
    }
    proof {
        assert(msgs =~= closing_messages(modules@, config_limited, js_external as nat));
    }
}

proof fn lemma_imports_total_monotone(xs: Seq<Result<Extracted, String>>, a: int, b: int)
    requires
        a <= b,
    ensures
        imports_total(xs, a) <= imports_total(xs, b),
    decreases b - a,
{
    if a < b {
        lemma_imports_total_monotone(xs, a, b - 1);
    }
}

/// Everything an analysis states of a module: its file, its unresolved
/// imports and its graph figures.
pub open spec fn analysed_module(
    ms: Seq<ModuleAnalysis>,
    xs: Seq<Result<Extracted, String>>,
    es: Seq<DependencyEdge>,
    i: int,
    m: ModuleAnalysis,
) -> bool {
    &&& m.id == ms[i].id
    &&& m.relative_path == ms[i].relative_path
    &&& m.file_name == ms[i].file_name
    &&& m.extension == ms[i].extension
    &&& m.directory == ms[i].directory
    &&& m.lines_of_code == ms[i].lines_of_code
    &&& match xs[i] {
        Err(_) => m.unresolved_imports == ms[i].unresolved_imports,
        Ok(e) => unresolved_sorted(m.unresolved_imports@) && unresolved_values(m.unresolved_imports@).to_set()
            == unresolved_set(e.imports@),
    }
    &&& graph_metrics(ms, es, i, m)
}

/// The analysis of the repository `name` from its scanned modules (in
/// identifier order, as `new_module` makes them), what was extracted from
/// each, whether configuration reads hit their limit, and the warnings so far.
pub fn assemble(
    name: &str,
    modules: Vec<ModuleAnalysis>,
    extracted: &Vec<Result<Extracted, String>>,
    known: &FileSet,
    config_limited: bool,
    warnings: Warnings,
) -> (r: RepositoryAnalysis)
    requires
        modules.len() == extracted.len(),
        modules.len() < 0xffff_ffff,
        ids_sorted(modules@),
        forall|s: Seq<char>| known@.contains(s) <==> exists|i: int| 0 <= i < modules.len() && #[trigger] modules@[i].id@ == s,
        forall|i: int| 0 <= i < modules.len() ==> (#[trigger] modules@[i]).unresolved_imports.len() == 0,
        warnings@.suppressed + 2 * extracted.len() + 8 < usize::MAX,
        externals_before(modules@, extracted@, extracted.len() as int, false) <= usize::MAX,
        imports_total(extracted@, extracted.len() as int) <= usize::MAX,
    ensures
        r.repository_name@ == name@,
        r.root_display_name@ == name@,
        r.total_modules == modules.len(),
        r.modules.len() == modules.len(),
        r.total_edges == r.edges.len(),
        edges_sorted(r.edges@),
        edge_values(r.edges@).to_set() == edge_set(modules@, extracted@, known@, extracted.len() as int),
        r.edges.len() == if wanted_before(extracted@, known@, extracted.len() as int) < MAX_EDGES {
            wanted_before(extracted@, known@, extracted.len() as int)
        } else {
            MAX_EDGES as nat
        },
        forall|i: int| 0 <= i < modules.len() ==> analysed_module(modules@, extracted@, r.edges@, i, #[trigger] r.modules@[i]),
        cycle_numbering(
            links(modules@, r.edges@),
            modules.len() as nat,
            r.modules@.map_values(|m: ModuleAnalysis| cycle_number(m)),
            r.cycle_count as nat,
        ),
        critical_spec(r.modules@, texts(r.critical_modules@)),
        r.unresolved_count == unresolved_total(r.modules@, modules.len() as int),
        r.external_count == externals_before(modules@, extracted@, extracted.len() as int, false),
        texts(r.warnings@) == finished(
            pushed(
                warnings@,
                messages_before(modules@, extracted@, known@, extracted.len() as int) + closing_messages(
                    modules@,
                    config_limited,
                    externals_before(modules@, extracted@, extracted.len() as int, true),
                ),
            ),
        ),
{
    let ghost ms = modules@;
    let ghost xs = extracted@;
    let ghost w0 = warnings@;
    let n = extracted.len();
    let mut modules = modules;
    let mut warnings = warnings;
    let linking = link_modules(&mut modules, extracted, known, &mut warnings);
    let ghost linked = modules@;
    proof {
        assert forall|a: int, b: int| 0 <= a < n && 0 <= b < n && a != b implies #[trigger] linked[a].id@ != #[trigger] linked[b].id@ by {
            assert(linked[a].id == ms[a].id);
            assert(linked[b].id == ms[b].id);
            if a < b {
                assert(seq_lt(ms[a].id@, ms[b].id@));
                lemma_lt_irreflexive(ms[a].id@);
            } else {
                assert(seq_lt(ms[b].id@, ms[a].id@));
                lemma_lt_irreflexive(ms[b].id@);
            }
        }
        assert forall|k: int| 0 <= k < linking.edges@.len() implies id_index(linked).contains_key((#[trigger] linking.edges@[k]).source@)
            && id_index(linked).contains_key(linking.edges@[k].target@) by {
            let ev = edge_values(linking.edges@);
            assert(ev[k] == edge_value(linking.edges@[k]));
            assert(ev.to_set().contains(ev[k]));
            let e = ev[k];
            assert(edge_set(ms, xs, known@, n as int).contains(e));
            let (i, j) = choose|i: int, j: int|
                0 <= i < n && 0 <= j < kept(xs, known@, i).len() && e == (ms[i].id@, #[trigger] kept(xs, known@, i)[j].0, kept(
                    xs,
                    known@,
                    i,
                )[j].1);
            assert(linked[i].id == ms[i].id);
            lemma_id_index(linked, ms[i].id@);
            lemma_fresh_known(imports_of(xs[i]), known@);
            assert(kept(xs, known@, i)[j] == wanted(xs, known@, i)[j]);
            assert(known@.contains(e.1));
            let t = choose|t: int| 0 <= t < n && #[trigger] ms[t].id@ == e.1;
            assert(linked[t].id == ms[t].id);
            lemma_id_index(linked, e.1);
        }
        assert forall|k: int, l: int|
            0 <= k < linking.edges@.len() && 0 <= l < linking.edges@.len() && k != l implies !(#[trigger] linking.edges@[k].source@
                == #[trigger] linking.edges@[l].source@ && linking.edges@[k].target@ == linking.edges@[l].target@) by {
            lemma_lt_irreflexive(linking.edges@[k].source@);
            lemma_lt_irreflexive(linking.edges@[k].target@);
            if k < l {
                assert(edge_lt(edge_value(linking.edges@[k]), edge_value(linking.edges@[l])));
            } else {
                assert(edge_lt(edge_value(linking.edges@[l]), edge_value(linking.edges@[k])));
            }
        }
        assert(distinct_ids(linked));
        assert(edges_known(linked, linking.edges@));
        assert(distinct_links(linking.edges@));
    }
    let metrics = calculate(&mut modules, &linking.edges);
    proof {
        lemma_same_index(linked, ms);
        assert(links(linked, linking.edges@) =~= links(ms, linking.edges@));
        assert forall|i: int| 0 <= i < n implies analysed_module(ms, xs, linking.edges@, i, #[trigger] modules@[i]) by {
            assert(same_file(linked[i], modules@[i]));
            assert(graph_metrics(linked, linking.edges@, i, modules@[i]));
        }
    }
    let mut unresolved_count: usize = 0;
    let mut i: usize = 0;
    proof {
        lemma_imports_total_monotone(xs, 0, n as int);
    }
    while i < n
        invariant
            i <= n,
            modules.len() == n,
            xs.len() == n,
            ms.len() == n,
            forall|k: int| 0 <= k < n ==> (#[trigger] ms[k]).unresolved_imports.len() == 0,
            forall|k: int| 0 <= k < n ==> analysed_module(ms, xs, linking.edges@, k, #[trigger] modules@[k]),
            forall|k: int| 0 <= k < n ==> linked_module(ms[k], xs[k], #[trigger] linked[k]),
            forall|k: int| 0 <= k < n ==> (#[trigger] modules@[k]).unresolved_imports == linked[k].unresolved_imports,
            imports_total(xs, n as int) <= usize::MAX,
            linked.len() == n,
            warnings@.suppressed <= w0.suppressed + 2 * n + 1,
            w0.suppressed + 2 * n + 8 < usize::MAX,
            unresolved_count == unresolved_total(modules@, i as int),
            unresolved_total(modules@, i as int) <= imports_total(xs, i as int),
        decreases n - i,
    {
        proof {
            lemma_imports_total_monotone(xs, i + 1, n as int);
            assert(modules@[i as int].unresolved_imports == linked[i as int].unresolved_imports);
            assert(linked_module(ms[i as int], xs[i as int], linked[i as int]));
            match xs[i as int] {
                Err(_) => {
                    assert(linked[i as int].unresolved_imports == ms[i as int].unresolved_imports);
                },
                Ok(e) => {},
            }
            assert(modules@[i as int].unresolved_imports@.len() <= imports_of(xs[i as int]).len());
        }
        unresolved_count = unresolved_count + modules[i].unresolved_imports.len();
        i += 1;
    }
    proof {
        assert forall|exts: Seq<Seq<char>>| any_extension(modules@, exts) == any_extension(ms, exts) by {
            if any_extension(modules@, exts) {
                let k = choose|k: int| 0 <= k < modules@.len() && exts.contains(#[trigger] modules@[k].extension@);
                assert(analysed_module(ms, xs, linking.edges@, k, modules@[k]));
            }
            if any_extension(ms, exts) {
                let k = choose|k: int| 0 <= k < ms.len() && exts.contains(#[trigger] ms[k].extension@);
                assert(analysed_module(ms, xs, linking.edges@, k, modules@[k]));
                assert(modules@[k].extension@ == ms[k].extension@);
            }
        }
        assert(closing_messages(modules@, config_limited, linking.js_external as nat) == closing_messages(
            ms,
            config_limited,
            linking.js_external as nat,
        ));
        lemma_pushed_append(w0, messages_before(ms, xs, known@, n as int), closing_messages(ms, config_limited, linking.js_external as nat));
    }
    closing_notes(&mut warnings, &modules, config_limited, linking.js_external);
    let shown = warnings.finish();
    RepositoryAnalysis {
        repository_name: owned(name),
        root_display_name: owned(name),
        total_modules: n,
        total_edges: linking.edges.len(),
        unresolved_count,
        external_count: linking.external,
        cycle_count: metrics.cycles,
        modules,
        edges: linking.edges,
        critical_modules: metrics.critical,
        warnings: shown,
    }
}

} // verus!
