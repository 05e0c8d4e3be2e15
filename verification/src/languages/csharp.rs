//! C# type and namespace resolution over the declarations of the scanned
//! sources: aliases, enclosing types and namespaces, the global namespace,
//! then imported namespaces. Neither MSBuild nor .NET is run.
use vstd::prelude::*;
use vstd::hash_map::StringHashMap;
use crate::model::FileSet;
use crate::order::texts;
use crate::resolver::{Resolution, ResolutionView};
use crate::text_util::{
    before_last, chars_of, first_index, has_prefix, has_suffix, join_with, last_index,
    lemma_first_index, lemma_last_index, owned, seq_lt, str_lt, string_of, vec_before_last,
    vec_first_index, vec_has_prefix, vec_has_suffix, vec_join, vec_last_index, vec_same, vec_slice,
    views,
};

verus! {

/// Several files declare the type and not all of them as `partial`.
pub open spec fn ambiguous() -> Seq<char> {
    "C# type has multiple possible source declarations; project and assembly selection was not guessed."@
}

/// The name lies in a project namespace or type but nothing declares it.
pub open spec fn missing() -> Seq<char> {
    "C# project type was not found; it may be ignored, generated, or outside the scanned source set."@
}

/// `prefix.name`, where an empty side gives the other side alone.
pub open spec fn cs_qualified(prefix: Seq<char>, name: Seq<char>) -> Seq<char> {
    if prefix.len() == 0 {
        name
    } else if name.len() == 0 {
        prefix
    } else {
        prefix + seq!['.'] + name
    }
}

/// Qualifies a name by a namespace or type.
pub fn qualify(prefix: &str, name: &str) -> (r: String)
    ensures
        r@ == cs_qualified(prefix@, name@),
{
    let p = chars_of(prefix);
    let n = chars_of(name);
    if p.len() == 0 {
        return string_of(&n);
    }
    if n.len() == 0 {
        return string_of(&p);
    }
    let mut v = p;
    v.push('.');
    let ghost start = v@;
    let mut i: usize = 0;
    while i < n.len()
        invariant
            i <= n.len(),
            v@ == start + n@.take(i as int),
        decreases n.len() - i,
    {
        v.push(n[i]);
        i += 1;
        assert(v@ =~= start + n@.take(i as int));
    }
    assert(n@.take(n.len() as int) =~= n@);
    string_of(&v)
}

/// The characters `global::`.
pub open spec fn global_prefix() -> Seq<char> {
    seq!['g', 'l', 'o', 'b', 'a', 'l', ':', ':']
}

/// `s` without one leading `global::`.
pub open spec fn strip_global(s: Seq<char>) -> Seq<char> {
    if has_prefix(s, global_prefix()) {
        s.subrange(8, s.len() as int)
    } else {
        s
    }
}

/// `s` without any leading `global::` (`trim_start_matches`).
pub open spec fn trim_global(s: Seq<char>) -> Seq<char>
    decreases s.len(),
{
    if has_prefix(s, global_prefix()) {
        trim_global(s.subrange(8, s.len() as int))
    } else {
        s
    }
}

fn global_word() -> (r: Vec<char>)
    ensures
        r@ == global_prefix(),
{
    let r = vec!['g', 'l', 'o', 'b', 'a', 'l', ':', ':'];
    assert(r@ =~= global_prefix());
    r
}

fn strip_global_once(s: &str) -> (r: String)
    ensures
        r@ == strip_global(s@),
{
    let cs = chars_of(s);
    if vec_has_prefix(&cs, &global_word()) {
        string_of(&vec_slice(&cs, 8, cs.len()))
    } else {
        owned(s)
    }
}

fn trim_globals(s: &str) -> (r: String)
    ensures
        r@ == trim_global(s@),
{
    let cs = chars_of(s);
    let g = global_word();
    let mut start: usize = 0;
    assert(cs@.subrange(0, cs.len() as int) =~= cs@);
    while vec_has_prefix(&vec_slice(&cs, start, cs.len()), &g)
        invariant
            start <= cs.len(),
            g@ == global_prefix(),
            trim_global(cs@.subrange(start as int, cs.len() as int)) == trim_global(s@),
            cs@ == s@,
        decreases cs.len() - start,
    {
        assert(cs@.subrange(start as int, cs.len() as int).subrange(8, cs.len() - start) =~= cs@.subrange(
            start + 8,
            cs.len() as int,
        ));
        start += 8;
    }
    string_of(&vec_slice(&cs, start, cs.len()))
}

/// One declaration of a type: its file and whether it is `partial`.
pub struct CsDeclaration {
    pub file: String,
    pub partial: bool,
}

/// The views of a list of declarations.
pub open spec fn declaration_views(v: Seq<CsDeclaration>) -> Seq<(Seq<char>, bool)> {
    v.map_values(|d: CsDeclaration| (d.file@, d.partial))
}

/// A `using` directive: the namespace or type it names, its alias, the
/// namespace it appears in, and whether it is `static` or `global`.
pub struct CsUsing {
    pub name: String,
    pub alias: Option<String>,
    pub scope: String,
    pub is_static: bool,
    pub global: bool,
}

/// The mathematical value of a [`CsUsing`].
pub struct UsingView {
    pub name: Seq<char>,
    pub alias: Option<Seq<char>>,
    pub scope: Seq<char>,
    pub is_static: bool,
    pub global: bool,
}

impl View for CsUsing {
    type V = UsingView;

    open spec fn view(&self) -> UsingView {
        UsingView {
            name: self.name@,
            alias: match self.alias {
                Some(a) => Some(a@),
                None => None,
            },
            scope: self.scope@,
            is_static: self.is_static,
            global: self.global,
        }
    }
}

/// The views of a list of `using` directives.
pub open spec fn using_views(v: Seq<CsUsing>) -> Seq<UsingView> {
    v.map_values(|u: CsUsing| u@)
}

/// Where a reference stands: its namespace, the enclosing types from the
/// outermost in, and the generic parameters in scope.
pub struct CsScope {
    pub namespace: String,
    pub containers: Vec<String>,
    pub generics: FileSet,
}

/// A type name used in a file, with its scope and whether it names an
/// attribute.
pub struct CsReference {
    pub name: String,
    pub scope: CsScope,
    pub attribute: bool,
}

/// The declared types (with their declarations in file order) and the
/// namespaces of the project, parents included.
pub struct CsIndex {
    types: StringHashMap<Vec<CsDeclaration>>,
    namespaces: FileSet,
}

/// The mathematical value of a [`CsIndex`].
pub struct CsView {
    pub types: Map<Seq<char>, Seq<(Seq<char>, bool)>>,
    pub namespaces: Set<Seq<char>>,
}

impl View for CsIndex {
    type V = CsView;

    closed spec fn view(&self) -> CsView {
        CsView {
            types: Map::new(
                |q: Seq<char>| self.types@.contains_key(q),
                |q: Seq<char>| declaration_views(self.types@[q]@),
            ),
            namespaces: self.namespaces@,
        }
    }
}

/// Where a declaration of `file` goes in a list kept in file order: after
/// every declaration whose file does not sort after it.
pub open spec fn slot(list: Seq<(Seq<char>, bool)>, file: Seq<char>) -> int
    decreases list.len(),
{
    if list.len() == 0 {
        0
    } else if seq_lt(file, list[0].0) {
        0
    } else {
        1 + slot(list.drop_first(), file)
    }
}

/// The declarations of each type after the given ones, each list in file
/// order (declarations of one file in the order met).
pub open spec fn declared(declarations: Seq<(Seq<char>, Seq<char>, bool)>) -> Map<
    Seq<char>,
    Seq<(Seq<char>, bool)>,
>
    decreases declarations.len(),
{
    if declarations.len() == 0 {
        Map::empty()
    } else {
        let m = declared(declarations.drop_last());
        let d = declarations.last();
        let list = if m.contains_key(d.0) {
            m[d.0]
        } else {
            Seq::empty()
        };
        let k = slot(list, d.1);
        m.insert(d.0, list.take(k) + seq![(d.1, d.2)] + list.skip(k))
    }
}

/// The declared namespaces and every dotted prefix of them.
pub open spec fn with_parents(namespaces: Seq<Seq<char>>) -> Set<Seq<char>> {
    Set::new(
        |p: Seq<char>|
            exists|i: int|
                0 <= i < namespaces.len() && (namespaces[i] == p || exists|j: int|
                    0 <= j < namespaces[i].len() && namespaces[i][j] == '.' && #[trigger] namespaces[i].take(j)
                        == p),
    )
}

/// The type a fully qualified name denotes: every declaring file in order,
/// unless several files declare it without all being `partial`.
pub open spec fn cs_lookup(index: CsView, name: Seq<char>) -> Option<Seq<ResolutionView>> {
    if index.types.contains_key(name) {
        let ds = index.types[name];
        if ds.len() > 1 && exists|i: int| 0 <= i < ds.len() && !(#[trigger] ds[i]).1 {
            Some(seq![ResolutionView::Unresolved(ambiguous())])
        } else {
            Some(ds.map_values(|d: (Seq<char>, bool)| ResolutionView::Internal(d.0)))
        }
    } else {
        None
    }
}

/// Whether some dotted prefix of the name is a project namespace or type.
pub open spec fn cs_local(index: CsView, name: Seq<char>) -> bool {
    exists|i: int|
        0 <= i < name.len() && name[i] == '.' && (index.namespaces.contains(#[trigger] name.take(i))
            || index.types.contains_key(name.take(i)))
}

/// The name a `using` directive refers to: tried relative to each enclosing
/// namespace from the innermost out, and taken as written when none matches.
pub open spec fn anchored_name(index: CsView, name: Seq<char>, scope: Seq<char>) -> Seq<char>
    decreases scope.len(),
{
    if scope.len() == 0 {
        name
    } else {
        let candidate = cs_qualified(scope, name);
        if index.namespaces.contains(candidate) || index.types.contains_key(candidate) {
            candidate
        } else {
            proof {
                lemma_last_index(scope, '.');
            }
            anchored_name(index, name, before_last(scope, '.'))
        }
    }
}

/// A `using` directive as the index reads it.
pub open spec fn anchored(index: CsView, using: UsingView) -> UsingView {
    if has_prefix(using.name, global_prefix()) {
        using
    } else {
        UsingView { name: anchored_name(index, using.name, using.scope), ..using }
    }
}

/// Whether a directive applies in the given namespace.
pub open spec fn applies(using: UsingView, namespace: Seq<char>) -> bool {
    ||| using.global
    ||| using.scope.len() == 0
    ||| using.scope == namespace
    ||| has_prefix(namespace, using.scope + seq!['.'])
}

/// The directives of the list that apply in a namespace, in order, leaving
/// out global ones when `own` is set.
pub open spec fn applying(directives: Seq<UsingView>, namespace: Seq<char>, own: bool) -> Seq<UsingView>
    decreases directives.len(),
{
    if directives.len() == 0 {
        Seq::empty()
    } else {
        let rest = applying(directives.drop_last(), namespace, own);
        let u = directives.last();
        if (!own || !u.global) && applies(u, namespace) {
            rest.push(u)
        } else {
            rest
        }
    }
}

/// The directives that apply in a namespace: the file's own non-global ones,
/// then the global ones of the whole project.
pub open spec fn applicable(usings: Seq<UsingView>, globals: Seq<UsingView>, namespace: Seq<char>) -> Seq<UsingView> {
    applying(usings, namespace, true) + applying(globals, namespace, false)
}

/// The names that aliases equal to `first` give the reference.
pub open spec fn alias_names(directives: Seq<UsingView>, first: Seq<char>, tail: Seq<char>) -> Seq<Seq<char>>
    decreases directives.len(),
{
    if directives.len() == 0 {
        Seq::empty()
    } else {
        let rest = alias_names(directives.drop_last(), first, tail);
        let u = directives.last();
        if u.alias == Some(first) {
            rest.push(trim_global(u.name) + tail)
        } else {
            rest
        }
    }
}

/// The declared types that imported namespaces make of a name.
pub open spec fn imported_names(index: CsView, directives: Seq<UsingView>, raw: Seq<char>) -> Seq<Seq<char>>
    decreases directives.len(),
{
    if directives.len() == 0 {
        Seq::empty()
    } else {
        let rest = imported_names(index, directives.drop_last(), raw);
        let u = directives.last();
        let candidate = cs_qualified(trim_global(u.name), raw);
        if u.alias is None && index.types.contains_key(candidate) {
            rest.push(candidate)
        } else {
            rest
        }
    }
}

/// Whether every name in the list is the first one.
pub open spec fn all_same(s: Seq<Seq<char>>) -> bool {
    forall|i: int| 0 <= i < s.len() ==> #[trigger] s[i] == s[0]
}

/// The lookup of `raw` inside the enclosing types, from the innermost
/// `depth` out to the namespace itself.
pub open spec fn lexical(index: CsView, namespace: Seq<char>, containers: Seq<Seq<char>>, raw: Seq<char>, depth: int) -> Option<
    Seq<ResolutionView>,
>
    decreases depth + 1,
{
    if depth < 0 {
        None
    } else {
        let prefix = cs_qualified(namespace, join_with(containers.take(depth), '.'));
        match cs_lookup(index, cs_qualified(prefix, raw)) {
            Some(r) => Some(r),
            None => lexical(index, namespace, containers, raw, depth - 1),
        }
    }
}

/// The lookup of `raw` in the parents of a namespace, innermost first.
pub open spec fn in_parents(index: CsView, namespace: Seq<char>, raw: Seq<char>) -> Option<Seq<ResolutionView>>
    decreases namespace.len(),
{
    match last_index(namespace, '.') {
        None => None,
        Some(i) => {
            proof {
                lemma_last_index(namespace, '.');
            }
            let parent = namespace.take(i);
            match cs_lookup(index, cs_qualified(parent, raw)) {
                Some(r) => Some(r),
                None => in_parents(index, parent, raw),
            }
        },
    }
}

/// Everything before the first `c`, or all of `s`.
pub open spec fn before_first(s: Seq<char>, c: char) -> Seq<char> {
    match first_index(s, c) {
        Some(i) => s.subrange(0, i),
        None => s,
    }
}

/// The characters `Attribute`.
pub open spec fn attribute_suffix() -> Seq<char> {
    seq!['A', 't', 't', 'r', 'i', 'b', 'u', 't', 'e']
}

/// The characters `var`.
pub open spec fn var_word() -> Seq<char> {
    seq!['v', 'a', 'r']
}

/// A name found by lookup, else missing when it lies in the project, else
/// nothing.
pub open spec fn found_or_missing(index: CsView, name: Seq<char>) -> Seq<ResolutionView> {
    match cs_lookup(index, name) {
        Some(r) => r,
        None => if cs_local(index, name) {
            seq![ResolutionView::Unresolved(missing())]
        } else {
            Seq::empty()
        },
    }
}

/// Where a type reference leads. Generic parameters, `var` and empty names
/// lead nowhere; `global::` names are looked up as written; an alias decides
/// alone; then the enclosing types and namespace, the parent namespaces, the
/// global namespace and the imported namespaces are tried in turn. An
/// attribute name is retried with the `Attribute` suffix.
pub open spec fn cs_resolve(
    index: CsView,
    usings: Seq<UsingView>,
    globals: Seq<UsingView>,
    name: Seq<char>,
    namespace: Seq<char>,
    containers: Seq<Seq<char>>,
    generics: Set<Seq<char>>,
    attribute: bool,
) -> Seq<ResolutionView>
    decreases (if attribute {
        1int
    } else {
        0int
    }),
{
    let raw = strip_global(name);
    let first = before_first(raw, '.');
    let tail = raw.subrange(first.len() as int, raw.len() as int);
    let directives = applicable(usings, globals, namespace);
    let aliases = alias_names(directives, first, tail);
    let imported = imported_names(index, directives, raw);
    if generics.contains(first) || raw.len() == 0 || raw == var_word() {
        Seq::empty()
    } else if has_prefix(name, global_prefix()) {
        found_or_missing(index, raw)
    } else if aliases.len() > 0 {
        if !all_same(aliases) {
            seq![ResolutionView::Unresolved(ambiguous())]
        } else {
            found_or_missing(index, aliases[0])
        }
    } else if lexical(index, namespace, containers, raw, containers.len() as int) is Some {
        lexical(index, namespace, containers, raw, containers.len() as int).unwrap()
    } else if in_parents(index, namespace, raw) is Some {
        in_parents(index, namespace, raw).unwrap()
    } else if cs_lookup(index, raw) is Some {
        cs_lookup(index, raw).unwrap()
    } else if imported.len() > 0 && !all_same(imported) {
        seq![ResolutionView::Unresolved(ambiguous())]
    } else if imported.len() > 0 {
        match cs_lookup(index, imported[0]) {
            Some(r) => r,
            None => Seq::empty(),
        }
    } else if attribute && !has_suffix(raw, attribute_suffix()) {
        cs_resolve(index, usings, globals, name + attribute_suffix(), namespace, containers, generics, false)
    } else if raw.contains('.') && cs_local(index, raw) {
        seq![ResolutionView::Unresolved(missing())]
    } else {
        Seq::empty()
    }
}

/// What a `using` directive itself depends on: the named type for an alias or
/// a static import; a missing project name or an external namespace; nothing
/// for a project namespace or a plain namespace import of a type.
pub open spec fn using_targets_of(index: CsView, using: UsingView) -> Seq<ResolutionView> {
    let name = trim_global(using.name);
    match cs_lookup(index, name) {
        Some(r) => if using.alias is Some || using.is_static {
            r
        } else {
            Seq::empty()
        },
        None => if index.namespaces.contains(name) {
            Seq::empty()
        } else if cs_local(index, name) {
            seq![ResolutionView::Unresolved(missing())]
        } else {
            seq![ResolutionView::External]
        },
    }
}

/// The views of a list of resolutions.
pub open spec fn resolution_views(r: Seq<Resolution>) -> Seq<ResolutionView> {
    r.map_values(|x: Resolution| x@)
}

fn all_equal(names: &Vec<String>) -> (r: bool)
    requires
        names.len() > 0,
    ensures
        r == all_same(texts(names@)),
{
    let first = chars_of(names[0].as_str());
    let mut i: usize = 1;
    while i < names.len()
        invariant
            1 <= i <= names.len(),
            first@ == texts(names@)[0],
            forall|k: int| 0 <= k < i ==> #[trigger] texts(names@)[k] == texts(names@)[0],
        decreases names.len() - i,
    {
        if !vec_same(&chars_of(names[i].as_str()), &first) {
            assert(texts(names@)[i as int] != texts(names@)[0]);
            return false;
        }
        i += 1;
    }
    true
}

fn copy_declarations(v: &Vec<CsDeclaration>) -> (r: Vec<CsDeclaration>)
    ensures
        declaration_views(r@) == declaration_views(v@),
{
    let mut r: Vec<CsDeclaration> = Vec::new();
    let mut i: usize = 0;
    while i < v.len()
        invariant
            i <= v.len(),
            r@.len() == i,
            forall|t: int| 0 <= t < i ==> (#[trigger] r@[t]).file@ == v@[t].file@ && r@[t].partial == v@[t].partial,
        decreases v.len() - i,
    {
        r.push(CsDeclaration { file: owned(v[i].file.as_str()), partial: v[i].partial });
        i += 1;
    }
    assert(declaration_views(r@) =~= declaration_views(v@));
    r
}

fn find_slot(list: &Vec<CsDeclaration>, file: &str) -> (r: usize)
    ensures
        r as int == slot(declaration_views(list@), file@),
        r <= list.len(),
{
    let ghost all = declaration_views(list@);
    let mut i: usize = 0;
    assert(all.skip(0) =~= all);
    while i < list.len() && !str_lt(file, list[i].file.as_str())
        invariant
            i <= list.len(),
            all == declaration_views(list@),
            slot(all, file@) == i + slot(all.skip(i as int), file@),
        decreases list.len() - i,
    {
        assert(all.skip(i as int).drop_first() =~= all.skip(i + 1));
        i += 1;
    }
    proof {
        if i < list.len() {
            assert(all.skip(i as int)[0] == all[i as int]);
        }
    }
    i
}


fn copy_using(u: &CsUsing) -> (r: CsUsing)
    ensures
        r@ == u@,
{
    let alias = match &u.alias {
        Some(a) => Some(owned(a.as_str())),
        None => None,
    };
    CsUsing {
        name: owned(u.name.as_str()),
        alias,
        scope: owned(u.scope.as_str()),
        is_static: u.is_static,
        global: u.global,
    }
}

fn applies_in(u: &CsUsing, namespace: &Vec<char>) -> (r: bool)
    ensures
        r == applies(u@, namespace@),
{
    if u.global {
        return true;
    }
    let scope = chars_of(u.scope.as_str());
    if scope.len() == 0 || vec_same(&scope, namespace) {
        return true;
    }
    let mut dotted = scope.clone();
    dotted.push('.');
    assert(dotted@ =~= u@.scope + seq!['.']);
    vec_has_prefix(namespace, &dotted)
}

fn collect_applying(
    directives: &Vec<CsUsing>,
    namespace: &Vec<char>,
    own: bool,
    out: &mut Vec<CsUsing>,
)
    ensures
        using_views(final(out)@) == using_views(old(out)@) + applying(using_views(directives@), namespace@, own),
{
    let ghost ds = using_views(directives@);
    let ghost start = using_views(out@);
    let mut i: usize = 0;
    assert(ds.take(0) =~= Seq::<UsingView>::empty());
    assert(start + applying(ds.take(0), namespace@, own) =~= start);
    while i < directives.len()
        invariant
            i <= directives.len(),
            ds == using_views(directives@),
            using_views(out@) == start + applying(ds.take(i as int), namespace@, own),
        decreases directives.len() - i,
    {
        proof {
            assert(ds.take(i + 1).drop_last() =~= ds.take(i as int));
            assert(ds.take(i + 1).last() == directives@[i as int]@);
        }
        let u = &directives[i];
        if (!own || !u.global) && applies_in(u, namespace) {
            let ghost before = using_views(out@);
            let c = copy_using(u);
            out.push(c);
            assert(using_views(out@) =~= before.push(u@));
        }
        i += 1;
    }
    assert(ds.take(directives.len() as int) =~= ds);
}

impl CsIndex {
    /// The index of the declarations `(qualified type, file, partial)` and of
    /// the declared namespaces.
    pub fn new(declarations: &Vec<(String, String, bool)>, namespaces: &Vec<String>) -> (r: Self)
        ensures
            r@.types == declared(declarations@.map_values(|d: (String, String, bool)| (d.0@, d.1@, d.2))),
            r@.namespaces == with_parents(texts(namespaces@)),
    {
        let ghost ds = declarations@.map_values(|d: (String, String, bool)| (d.0@, d.1@, d.2));
        let mut types: StringHashMap<Vec<CsDeclaration>> = StringHashMap::new();
        let mut k: usize = 0;
        proof {
            assert(ds.take(0) =~= Seq::<(Seq<char>, Seq<char>, bool)>::empty());
        }
        while k < declarations.len()
            invariant
                k <= declarations.len(),
                ds == declarations@.map_values(|d: (String, String, bool)| (d.0@, d.1@, d.2)),
                forall|q: Seq<char>| #[trigger] types@.contains_key(q) == declared(ds.take(k as int)).contains_key(q),
                forall|q: Seq<char>| #[trigger] types@.contains_key(q) ==> declaration_views(types@[q]@)
                    == declared(ds.take(k as int))[q],
            decreases declarations.len() - k,
        {
            let ghost before = declared(ds.take(k as int));
            proof {
                assert(ds.take(k + 1).drop_last() =~= ds.take(k as int));
                assert(ds.take(k + 1).last() == ds[k as int]);
            }
            let name = &declarations[k].0;
            let file = &declarations[k].1;
            let partial = declarations[k].2;
            let mut list: Vec<CsDeclaration> = match types.get(name.as_str()) {
                Some(existing) => copy_declarations(existing),
                None => Vec::new(),
            };
            let ghost old_list = declaration_views(list@);
            assert(old_list == if before.contains_key(name@) {
                before[name@]
            } else {
                Seq::<(Seq<char>, bool)>::empty()
            });
            let at = find_slot(&list, file.as_str());
            list.insert(at, CsDeclaration { file: owned(file.as_str()), partial });
            assert(declaration_views(list@) =~= old_list.take(at as int) + seq![(file@, partial)] + old_list.skip(
                at as int,
            ));
            let ghost old_types = types@;
            types.insert(owned(name.as_str()), list);
            proof {
                let after = declared(ds.take(k + 1));
                assert(after == before.insert(name@, old_list.take(at as int) + seq![(file@, partial)] + old_list.skip(at as int)));
                assert forall|q: Seq<char>| #[trigger] types@.contains_key(q) == after.contains_key(q) by {
                    if q != name@ {
                        assert(types@.contains_key(q) == old_types.contains_key(q));
                    }
                }
                assert forall|q: Seq<char>| #[trigger] types@.contains_key(q) implies declaration_views(types@[q]@)
                    == after[q] by {
                    if q != name@ {
                        assert(old_types.contains_key(q));
                    }
                }
            }
            k += 1;
        }
        assert(ds.take(declarations.len() as int) =~= ds);
        let mut known = FileSet::new();
        let ghost names = texts(namespaces@);
        let mut n: usize = 0;
        while n < namespaces.len()
            invariant
                n <= namespaces.len(),
                names == texts(namespaces@),
                forall|p: Seq<char>| known@.contains(p) <==> with_parents(names.take(n as int)).contains(p),
            decreases namespaces.len() - n,
        {
            let cs = chars_of(namespaces[n].as_str());
            assert(names[n as int] == cs@);
            known.insert(namespaces[n].as_str());
            let mut j: usize = 0;
            while j < cs.len()
                invariant
                    n < namespaces.len(),
                    names == texts(namespaces@),
                    names[n as int] == cs@,
                    j <= cs.len(),
                    forall|p: Seq<char>| known@.contains(p) <==> (with_parents(names.take(n as int)).contains(p)
                        || p == cs@ || exists|t: int| 0 <= t < j && cs@[t] == '.' && #[trigger] cs@.take(t) == p),
                decreases cs.len() - j,
            {
                if cs[j] == '.' {
                    let prefix = vec_slice(&cs, 0, j);
                    assert(prefix@ =~= cs@.take(j as int));
                    known.insert(string_of(&prefix).as_str());
                    assert forall|p: Seq<char>| known@.contains(p) <==> (with_parents(names.take(n as int)).contains(p)
                        || p == cs@ || exists|t: int| 0 <= t < j + 1 && cs@[t] == '.' && #[trigger] cs@.take(t) == p) by {
                        if p == cs@.take(j as int) {
                            assert(cs@[j as int] == '.');
                        }
                    }
                }
                j += 1;
            }
            proof {
                assert forall|p: Seq<char>| known@.contains(p) <==> with_parents(names.take(n + 1)).contains(p) by {
                    let before = names.take(n as int);
                    let after = names.take(n + 1);
                    assert(after[n as int] == cs@);
                    if with_parents(before).contains(p) {
                        let i = choose|i: int|
                            0 <= i < before.len() && (before[i] == p || exists|j: int|
                                0 <= j < before[i].len() && before[i][j] == '.' && #[trigger] before[i].take(j) == p);
                        assert(after[i] == before[i]);
                    }
                    if p == cs@ {
                        assert(after[n as int] == p);
                    }
                    if exists|t: int| 0 <= t < cs@.len() && cs@[t] == '.' && #[trigger] cs@.take(t) == p {
                        let t = choose|t: int| 0 <= t < cs@.len() && cs@[t] == '.' && #[trigger] cs@.take(t) == p;
                        assert(after[n as int].take(t) == p);
                    }
                    if with_parents(after).contains(p) {
                        let i = choose|i: int|
                            0 <= i < after.len() && (after[i] == p || exists|j: int|
                                0 <= j < after[i].len() && after[i][j] == '.' && #[trigger] after[i].take(j) == p);
                        if i < n {
                            assert(before[i] == after[i]);
                        }
                    }
                }
            }
            n += 1;
        }
        assert(names.take(namespaces.len() as int) =~= names);
        let r = CsIndex { types, namespaces: known };
        assert(r@.types =~= declared(ds));
        assert(r@.namespaces =~= with_parents(names));
        r
    }

    /// The type a fully qualified name denotes.
    pub fn lookup(&self, name: &str) -> (r: Option<Vec<Resolution>>)
        ensures
            match r {
                Some(v) => cs_lookup(self@, name@) == Some(resolution_views(v@)),
                None => cs_lookup(self@, name@) is None,
            },
    {
        match self.types.get(name) {
            None => None,
            Some(ds) => {
                let ghost dv = declaration_views(ds@);
                assert(dv == self@.types[name@]);
                let mut all_partial = true;
                let mut i: usize = 0;
                while i < ds.len()
                    invariant
                        i <= ds.len(),
                        dv == declaration_views(ds@),
                        all_partial == forall|k: int| 0 <= k < i ==> (#[trigger] dv[k]).1,
                    decreases ds.len() - i,
                {
                    assert(dv[i as int].1 == ds@[i as int].partial);
                    if !ds[i].partial {
                        all_partial = false;
                    }
                    i += 1;
                }
                if ds.len() > 1 && !all_partial {
                    let r = vec![Resolution::Unresolved(
                        "C# type has multiple possible source declarations; project and assembly selection was not guessed.",
                    )];
                    assert(resolution_views(r@) =~= seq![ResolutionView::Unresolved(ambiguous())]);
                    return Some(r);
                }
                let mut r: Vec<Resolution> = Vec::new();
                let mut j: usize = 0;
                while j < ds.len()
                    invariant
                        j <= ds.len(),
                        dv == declaration_views(ds@),
                        r@.len() == j,
                        forall|t: int| 0 <= t < j ==> #[trigger] r@[t]@ == ResolutionView::Internal(dv[t].0),
                    decreases ds.len() - j,
                {
                    r.push(Resolution::Internal(owned(ds[j].file.as_str())));
                    j += 1;
                }
                assert(resolution_views(r@) =~= dv.map_values(
                    |d: (Seq<char>, bool)| ResolutionView::Internal(d.0),
                ));
                Some(r)
            },
        }
    }

    /// Whether a dotted prefix of the name is a project namespace or type.
    pub fn local_name(&self, name: &str) -> (r: bool)
        ensures
            r == cs_local(self@, name@),
    {
        let cs = chars_of(name);
        let mut i: usize = 0;
        while i < cs.len()
            invariant
                i <= cs.len(),
                cs@ == name@,
                forall|j: int| 0 <= j < i && cs@[j] == '.' ==> !(self@.namespaces.contains(#[trigger] cs@.take(j))
                    || self@.types.contains_key(cs@.take(j))),
            decreases cs.len() - i,
        {
            if cs[i] == '.' {
                let prefix = string_of(&vec_slice(&cs, 0, i));
                assert(prefix@ =~= cs@.take(i as int));
                if self.namespaces.contains(prefix.as_str()) || self.types.contains_key(prefix.as_str()) {
                    return true;
                }
            }
            i += 1;
        }
        false
    }

    fn found_or_missing(&self, name: &str) -> (r: Vec<Resolution>)
        ensures
            resolution_views(r@) == found_or_missing(self@, name@),
    {
        match self.lookup(name) {
            Some(found) => found,
            None => {
                if self.local_name(name) {
                    let r = vec![Resolution::Unresolved(
                        "C# project type was not found; it may be ignored, generated, or outside the scanned source set.",
                    )];
                    assert(resolution_views(r@) =~= seq![ResolutionView::Unresolved(missing())]);
                    r
                } else {
                    let r: Vec<Resolution> = Vec::new();
                    assert(resolution_views(r@) =~= Seq::<ResolutionView>::empty());
                    r
                }
            },
        }
    }

    /// A `using` directive with its name read relative to the enclosing
    /// namespaces.
    pub fn anchored(&self, using: &CsUsing) -> (r: CsUsing)
        ensures
            r@ == anchored(self@, using@),
    {
        let alias = match &using.alias {
            Some(a) => Some(owned(a.as_str())),
            None => None,
        };
        let name_chars = chars_of(using.name.as_str());
        if vec_has_prefix(&name_chars, &global_word()) {
            return CsUsing {
                name: owned(using.name.as_str()),
                alias,
                scope: owned(using.scope.as_str()),
                is_static: using.is_static,
                global: using.global,
            };
        }
        let mut scope = owned(using.scope.as_str());
        let mut name = owned(using.name.as_str());
        loop
            invariant_except_break
                anchored_name(self@, using.name@, scope@) == anchored_name(self@, using.name@, using.scope@),
            ensures
                name@ == anchored_name(self@, using.name@, using.scope@),
            decreases scope@.len(),
        {
            let cs = chars_of(scope.as_str());
            if cs.len() == 0 {
                name = owned(using.name.as_str());
                break;
            }
            let candidate = qualify(scope.as_str(), using.name.as_str());
            if self.namespaces.contains(candidate.as_str()) || self.types.contains_key(candidate.as_str()) {
                name = candidate;
                break;
            }
            proof {
                lemma_last_index(scope@, '.');
            }
            scope = string_of(&vec_before_last(&cs, '.'));
        }
        let r = CsUsing { name, alias, scope: owned(using.scope.as_str()), is_static: using.is_static, global: using.global };
        r
    }

    /// What a `using` directive of a file depends on itself.
    pub fn using_targets(&self, using: &CsUsing) -> (r: Vec<Resolution>)
        ensures
            resolution_views(r@) == using_targets_of(self@, using@),
    {
        let name = trim_globals(using.name.as_str());
        match self.lookup(name.as_str()) {
            Some(found) => {
                if using.alias.is_some() || using.is_static {
                    found
                } else {
                    let r: Vec<Resolution> = Vec::new();
                    assert(resolution_views(r@) =~= Seq::<ResolutionView>::empty());
                    r
                }
            },
            None => {
                let r = if self.namespaces.contains(name.as_str()) {
                    Vec::new()
                } else if self.local_name(name.as_str()) {
                    vec![Resolution::Unresolved(
                        "C# project type was not found; it may be ignored, generated, or outside the scanned source set.",
                    )]
                } else {
                    vec![Resolution::External]
                };
                assert(resolution_views(r@) =~= using_targets_of(self@, using@));
                r
            },
        }
    }

    /// Where a type reference leads, given the file's `using` directives and
    /// the global ones of the project.
    pub fn resolve(&self, usings: &Vec<CsUsing>, globals: &Vec<CsUsing>, reference: &CsReference) -> (r: Vec<Resolution>)
        ensures
            resolution_views(r@) == cs_resolve(
                self@,
                using_views(usings@),
                using_views(globals@),
                reference.name@,
                reference.scope.namespace@,
                texts(reference.scope.containers@),
                reference.scope.generics@,
                reference.attribute,
            ),
    {
        self.resolve_name(usings, globals, reference.name.as_str(), &reference.scope, reference.attribute)
    }

    #[verifier::loop_isolation(false)]
    fn resolve_name(&self, usings: &Vec<CsUsing>, globals: &Vec<CsUsing>, name: &str, scope: &CsScope, attribute: bool) -> (r: Vec<Resolution>)
        ensures
            resolution_views(r@) == cs_resolve(
                self@,
                using_views(usings@),
                using_views(globals@),
                name@,
                scope.namespace@,
                texts(scope.containers@),
                scope.generics@,
                attribute,
            ),
        decreases (if attribute {
            1int
        } else {
            0int
        }),
    {
        let ghost spec_r = cs_resolve(
            self@,
            using_views(usings@),
            using_views(globals@),
            name@,
            scope.namespace@,
            texts(scope.containers@),
            scope.generics@,
            attribute,
        );
        let raw_text = strip_global_once(name);
        let raw = chars_of(raw_text.as_str());
        proof {
            lemma_first_index(raw@, '.');
        }
        let first_len = match vec_first_index(&raw, '.') {
            Some(i) => i,
            None => raw.len(),
        };
        let first = string_of(&vec_slice(&raw, 0, first_len));
        let tail = vec_slice(&raw, first_len, raw.len());
        proof {
            if first_index(raw@, '.') is None {
                assert(raw@.subrange(0, raw.len() as int) =~= raw@);
            }
            assert(first@ == before_first(raw_text@, '.'));
        }
        let var = vec!['v', 'a', 'r'];
        assert(var@ =~= var_word());
        let empty: Vec<Resolution> = Vec::new();
        assert(resolution_views(empty@) =~= Seq::<ResolutionView>::empty());
        if scope.generics.contains(first.as_str()) || raw.len() == 0 || vec_same(&raw, &var) {
            return empty;
        }
        if vec_has_prefix(&chars_of(name), &global_word()) {
            return self.found_or_missing(raw_text.as_str());
        }
        let namespace = chars_of(scope.namespace.as_str());
        let mut directives: Vec<CsUsing> = Vec::new();
        assert(using_views(directives@) =~= Seq::<UsingView>::empty());
        collect_applying(usings, &namespace, true, &mut directives);
        collect_applying(globals, &namespace, false, &mut directives);
        assert(using_views(directives@) =~= applicable(using_views(usings@), using_views(globals@), scope.namespace@));
        let ghost dv = using_views(directives@);
        // Aliases decide alone.
        let mut aliases: Vec<String> = Vec::new();
        let mut k: usize = 0;
        while k < directives.len()
            invariant
                k <= directives.len(),
                dv == using_views(directives@),
                texts(aliases@) == alias_names(dv.take(k as int), first@, tail@),
            decreases directives.len() - k,
        {
            proof {
                assert(dv.take(k + 1).drop_last() =~= dv.take(k as int));
                assert(dv.take(k + 1).last() == directives@[k as int]@);
            }
            let u = &directives[k];
            let matches = match &u.alias {
                Some(a) => vec_same(&chars_of(a.as_str()), &chars_of(first.as_str())),
                None => false,
            };
            if matches {
                let mut full = chars_of(trim_globals(u.name.as_str()).as_str());
                let ghost start = full@;
                let mut t: usize = 0;
                while t < tail.len()
                    invariant
                        t <= tail.len(),
                        full@ == start + tail@.take(t as int),
                    decreases tail.len() - t,
                {
                    full.push(tail[t]);
                    t += 1;
                    assert(full@ =~= start + tail@.take(t as int));
                }
                assert(tail@.take(tail.len() as int) =~= tail@);
                let text = string_of(&full);
                let ghost before = texts(aliases@);
                aliases.push(text);
                assert(texts(aliases@) =~= before.push(full@));
            }
            k += 1;
        }
        assert(dv.take(directives.len() as int) =~= dv);
        if aliases.len() > 0 {
            if !all_equal(&aliases) {
                let r = vec![Resolution::Unresolved(
                    "C# type has multiple possible source declarations; project and assembly selection was not guessed.",
                )];
                assert(resolution_views(r@) =~= seq![ResolutionView::Unresolved(ambiguous())]);
                return r;
            }
            assert(aliases@[0]@ == texts(aliases@)[0]);
            return self.found_or_missing(aliases[0].as_str());
        }
        // The enclosing types, innermost first, then the namespace itself.
        let containers = &scope.containers;
        let ghost cv = texts(containers@);
        let mut depth = containers.len();
        loop
            invariant
                depth <= containers.len(),
                cv == texts(containers@),
                lexical(self@, scope.namespace@, cv, raw_text@, containers.len() as int) == lexical(
                    self@,
                    scope.namespace@,
                    cv,
                    raw_text@,
                    depth as int,
                ),
            decreases depth,
        {
            let mut pieces: Vec<Vec<char>> = Vec::new();
            let mut c: usize = 0;
            while c < depth
                invariant
                    c <= depth <= containers.len(),
                    cv == texts(containers@),
                    views(pieces@) == cv.take(c as int),
                decreases depth - c,
            {
                assert(cv[c as int] == containers@[c as int]@);
                pieces.push(chars_of(containers[c].as_str()));
                c += 1;
                assert(views(pieces@) =~= cv.take(c as int));
            }
            let joined = string_of(&vec_join(&pieces, '.'));
            let prefix = qualify(scope.namespace.as_str(), joined.as_str());
            let candidate = qualify(prefix.as_str(), raw_text.as_str());
            assert(candidate@ == cs_qualified(
                cs_qualified(scope.namespace@, join_with(cv.take(depth as int), '.')),
                raw_text@,
            ));
            match self.lookup(candidate.as_str()) {
                Some(found) => {
                    return found;
                },
                None => {},
            }
            if depth == 0 {
                assert(lexical(self@, scope.namespace@, cv, raw_text@, -1) is None);
                assert(lexical(self@, scope.namespace@, cv, raw_text@, 0) is None);
                break;
            }
            depth -= 1;
        }
        assert(lexical(self@, scope.namespace@, cv, raw_text@, containers.len() as int) is None);
        // The parent namespaces, innermost first.
        let mut current = namespace.clone();
        loop
            invariant
                in_parents(self@, scope.namespace@, raw_text@) == in_parents(self@, current@, raw_text@),
            decreases current@.len(),
        {
            proof {
                lemma_last_index(current@, '.');
            }
            match vec_last_index(&current, '.') {
                None => {
                    assert(in_parents(self@, current@, raw_text@) is None);
                    break;
                },
                Some(i) => {
                    let parent = vec_slice(&current, 0, i);
                    assert(parent@ =~= current@.take(i as int));
                    let candidate = qualify(string_of(&parent).as_str(), raw_text.as_str());
                    match self.lookup(candidate.as_str()) {
                        Some(found) => {
                            return found;
                        },
                        None => {},
                    }
                    current = parent;
                },
            }
        }
        assert(in_parents(self@, scope.namespace@, raw_text@) is None);
        match self.lookup(raw_text.as_str()) {
            Some(found) => {
                return found;
            },
            None => {},
        }
        // The imported namespaces.
        let mut imported: Vec<String> = Vec::new();
        let mut m: usize = 0;
        while m < directives.len()
            invariant
                m <= directives.len(),
                dv == using_views(directives@),
                texts(imported@) == imported_names(self@, dv.take(m as int), raw_text@),
            decreases directives.len() - m,
        {
            proof {
                assert(dv.take(m + 1).drop_last() =~= dv.take(m as int));
                assert(dv.take(m + 1).last() == directives@[m as int]@);
            }
            let u = &directives[m];
            if u.alias.is_none() {
                let candidate = qualify(trim_globals(u.name.as_str()).as_str(), raw_text.as_str());
                if self.types.contains_key(candidate.as_str()) {
                    let ghost before = texts(imported@);
                    let ghost text = candidate@;
                    imported.push(candidate);
                    assert(texts(imported@) =~= before.push(text));
                }
            }
            m += 1;
        }
        assert(dv.take(directives.len() as int) =~= dv);
        if imported.len() > 0 {
            if !all_equal(&imported) {
                let r = vec![Resolution::Unresolved(
                    "C# type has multiple possible source declarations; project and assembly selection was not guessed.",
                )];
                assert(resolution_views(r@) =~= seq![ResolutionView::Unresolved(ambiguous())]);
                return r;
            }
            assert(imported@[0]@ == texts(imported@)[0]);
            return match self.lookup(imported[0].as_str()) {
                Some(found) => found,
                None => empty,
            };
        }
        let suffix = vec!['A', 't', 't', 'r', 'i', 'b', 'u', 't', 'e'];
        assert(suffix@ =~= attribute_suffix());
        if attribute && !vec_has_suffix(&raw, &suffix) {
            let mut longer = chars_of(name);
            let ghost start = longer@;
            let mut t: usize = 0;
            while t < suffix.len()
                invariant
                    t <= suffix.len(),
                    longer@ == start + suffix@.take(t as int),
                decreases suffix.len() - t,
            {
                longer.push(suffix[t]);
                t += 1;
                assert(longer@ =~= start + suffix@.take(t as int));
            }
            assert(suffix@.take(suffix.len() as int) =~= suffix@);
            let retried = string_of(&longer);
            return self.resolve_name(usings, globals, retried.as_str(), scope, false);
        }
        let mut dotted = false;
        let mut d: usize = 0;
        while d < raw.len()
            invariant
                d <= raw.len(),
                dotted == exists|j: int| 0 <= j < d && raw@[j] == '.',
            decreases raw.len() - d,
        {
            if raw[d] == '.' {
                dotted = true;
            }
            d += 1;
        }
        if dotted && self.local_name(raw_text.as_str()) {
            let r = vec![Resolution::Unresolved(
                "C# project type was not found; it may be ignored, generated, or outside the scanned source set.",
            )];
            assert(resolution_views(r@) =~= seq![ResolutionView::Unresolved(missing())]);
            r
        } else {
            empty
        }
    }

}

/// The directives that apply are among the given ones.
proof fn lemma_applying_from(ds: Seq<UsingView>, namespace: Seq<char>, own: bool, k: int)
    requires
        0 <= k < applying(ds, namespace, own).len(),
    ensures
        exists|j: int| 0 <= j < ds.len() && ds[j] == #[trigger] applying(ds, namespace, own)[k],
    decreases ds.len(),
{
    let rest = applying(ds.drop_last(), namespace, own);
    if k < rest.len() {
        lemma_applying_from(ds.drop_last(), namespace, own, k);
        let j = choose|j: int| 0 <= j < ds.drop_last().len() && ds.drop_last()[j] == #[trigger] rest[k];
        assert(ds[j] == applying(ds, namespace, own)[k]);
    } else {
        assert(ds[ds.len() - 1] == applying(ds, namespace, own)[k]);
    }
}

/// Directives none of which is an alias named `first` give no alias names.
proof fn lemma_no_alias(ds: Seq<UsingView>, first: Seq<char>, tail: Seq<char>)
    requires
        forall|k: int| 0 <= k < ds.len() ==> (#[trigger] ds[k]).alias != Some(first),
    ensures
        alias_names(ds, first, tail).len() == 0,
    decreases ds.len(),
{
    if ds.len() > 0 {
        assert forall|k: int| 0 <= k < ds.drop_last().len() implies (#[trigger] ds.drop_last()[k]).alias != Some(first) by {
            assert(ds.drop_last()[k] == ds[k]);
        }
        lemma_no_alias(ds.drop_last(), first, tail);
        assert(ds.last() == ds[ds.len() - 1]);
    }
}

/// No enclosing type or the namespace itself declares the name: the lexical
/// lookup finds nothing.
proof fn lemma_lexical_none(index: CsView, namespace: Seq<char>, containers: Seq<Seq<char>>, raw: Seq<char>, depth: int)
    requires
        depth <= containers.len(),
        forall|d: int| 0 <= d <= depth ==> !index.types.contains_key(
            #[trigger] cs_qualified(cs_qualified(namespace, join_with(containers.take(d), '.')), raw),
        ),
    ensures
        lexical(index, namespace, containers, raw, depth) is None,
    decreases depth + 1,
{
    if depth >= 0 {
        let q = cs_qualified(cs_qualified(namespace, join_with(containers.take(depth), '.')), raw);
        assert(!index.types.contains_key(q));
        lemma_lexical_none(index, namespace, containers, raw, depth - 1);
    }
}

/// The parent lookup finds the innermost proper parent namespace that declares the name.
proof fn lemma_in_parents(index: CsView, namespace: Seq<char>, raw: Seq<char>, i: int)
    requires
        0 <= i < namespace.len(),
        namespace[i] == '.',
        index.types.contains_key(cs_qualified(namespace.take(i), raw)),
        forall|j: int| i < j < namespace.len() && namespace[j] == '.' ==> !index.types.contains_key(
            #[trigger] cs_qualified(namespace.take(j), raw),
        ),
    ensures
        in_parents(index, namespace, raw) == cs_lookup(index, cs_qualified(namespace.take(i), raw)),
    decreases namespace.len(),
{
    lemma_last_index(namespace, '.');
    let l = last_index(namespace, '.').unwrap();
    assert(l >= i);
    let parent = namespace.take(l);
    if l > i {
        assert(!index.types.contains_key(cs_qualified(namespace.take(l), raw)));
        assert(parent.take(i) =~= namespace.take(i));
        assert forall|j: int| i < j < parent.len() && parent[j] == '.' implies !index.types.contains_key(
            #[trigger] cs_qualified(parent.take(j), raw)) by {
            assert(parent.take(j) =~= namespace.take(j));
            assert(namespace[j] == '.');
        }
        lemma_in_parents(index, parent, raw, i);
    }
}

/// Law: a type declared in an enclosing namespace is in scope. For a plain
/// name that is no generic parameter, no alias of an applicable or given
/// directive, and declared neither inside the enclosing types nor in the
/// namespace itself, the innermost proper parent namespace that declares it
/// decides the resolution: the files of that declaration.
pub proof fn law_parent_namespace_type(
    index: CsView,
    usings: Seq<UsingView>,
    globals: Seq<UsingView>,
    name: Seq<char>,
    namespace: Seq<char>,
    containers: Seq<Seq<char>>,
    generics: Set<Seq<char>>,
    attribute: bool,
    i: int,
)
    requires
        name.len() > 0,
        name != var_word(),
        !has_prefix(name, global_prefix()),
        !generics.contains(before_first(name, '.')),
        forall|k: int| 0 <= k < usings.len() ==> (#[trigger] usings[k]).alias != Some(before_first(name, '.')),
        forall|k: int| 0 <= k < globals.len() ==> (#[trigger] globals[k]).alias != Some(before_first(name, '.')),
        forall|d: int| 0 <= d <= containers.len() ==> !index.types.contains_key(
            #[trigger] cs_qualified(cs_qualified(namespace, join_with(containers.take(d), '.')), name),
        ),
        0 <= i < namespace.len(),
        namespace[i] == '.',
        index.types.contains_key(cs_qualified(namespace.take(i), name)),
        forall|j: int| i < j < namespace.len() && namespace[j] == '.' ==> !index.types.contains_key(
            #[trigger] cs_qualified(namespace.take(j), name),
        ),
    ensures
        cs_resolve(index, usings, globals, name, namespace, containers, generics, attribute) == cs_lookup(
            index,
            cs_qualified(namespace.take(i), name),
        ).unwrap(),
{
    let first = before_first(name, '.');
    let tail = name.subrange(first.len() as int, name.len() as int);
    let ds = applicable(usings, globals, namespace);
    let a = applying(usings, namespace, true);
    let b = applying(globals, namespace, false);
    assert forall|k: int| 0 <= k < ds.len() implies (#[trigger] ds[k]).alias != Some(first) by {
        if k < a.len() {
            lemma_applying_from(usings, namespace, true, k);
            assert(ds[k] == a[k]);
        } else {
            lemma_applying_from(globals, namespace, false, k - a.len());
            assert(ds[k] == b[k - a.len()]);
        }
    }
    lemma_no_alias(ds, first, tail);
    lemma_lexical_none(index, namespace, containers, name, containers.len() as int);
    lemma_in_parents(index, namespace, name, i);
}

/// Law: a name whose first segment is a generic parameter in scope leads nowhere.
pub proof fn law_generic_parameters_lead_nowhere(
    index: CsView,
    usings: Seq<UsingView>,
    globals: Seq<UsingView>,
    name: Seq<char>,
    namespace: Seq<char>,
    containers: Seq<Seq<char>>,
    generics: Set<Seq<char>>,
    attribute: bool,
)
    requires
        generics.contains(before_first(strip_global(name), '.')),
    ensures
        cs_resolve(index, usings, globals, name, namespace, containers, generics, attribute) == Seq::<ResolutionView>::empty(),
{
}

/// Law: a type declared in the reference's own namespace, outside any type, is
/// found there first when no alias or enclosing type claims the name.
pub proof fn law_own_namespace_type(
    index: CsView,
    usings: Seq<UsingView>,
    globals: Seq<UsingView>,
    name: Seq<char>,
    namespace: Seq<char>,
    generics: Set<Seq<char>>,
    attribute: bool,
)
    requires
        name.len() > 0,
        name != var_word(),
        !has_prefix(name, global_prefix()),
        !generics.contains(before_first(name, '.')),
        forall|k: int| 0 <= k < usings.len() ==> (#[trigger] usings[k]).alias != Some(before_first(name, '.')),
        forall|k: int| 0 <= k < globals.len() ==> (#[trigger] globals[k]).alias != Some(before_first(name, '.')),
        index.types.contains_key(cs_qualified(namespace, name)),
    ensures
        cs_resolve(index, usings, globals, name, namespace, Seq::empty(), generics, attribute) == cs_lookup(
            index,
            cs_qualified(namespace, name),
        ).unwrap(),
{
    let first = before_first(name, '.');
    let tail = name.subrange(first.len() as int, name.len() as int);
    let ds = applicable(usings, globals, namespace);
    let a = applying(usings, namespace, true);
    let b = applying(globals, namespace, false);
    assert forall|k: int| 0 <= k < ds.len() implies (#[trigger] ds[k]).alias != Some(first) by {
        if k < a.len() {
            lemma_applying_from(usings, namespace, true, k);
            assert(ds[k] == a[k]);
        } else {
            lemma_applying_from(globals, namespace, false, k - a.len());
            assert(ds[k] == b[k - a.len()]);
        }
    }
    lemma_no_alias(ds, first, tail);
    let c = Seq::<Seq<char>>::empty();
    assert(c.take(0) =~= Seq::<Seq<char>>::empty());
    assert(join_with(c.take(0), '.') =~= Seq::<char>::empty());
    assert(cs_qualified(namespace, Seq::<char>::empty()) == namespace) by {
        if namespace.len() == 0 {
            assert(namespace =~= Seq::<char>::empty());
        }
    }
}

} // verus!
