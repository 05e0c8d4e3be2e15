//! Java type references resolved against the types declared in the scanned
//! sources: imports first, then the importer's own package, then on-demand
//! imports. No compiler, build or classpath is consulted.
use vstd::prelude::*;
use vstd::hash_map::StringHashMap;
use crate::model::FileSet;
use crate::order::texts;
use crate::resolver::{Resolution, ResolutionView};
use crate::simulation::copy_texts;
use crate::text_util::{
    after_last, before_last, chars_of, first_index, last_index, lemma_first_index, lemma_last_index,
    owned, string_of, vec_after_last, vec_before_last, vec_first_index, vec_last_index, vec_same,
    vec_slice,
};

verus! {

/// Two source files declare the type.
pub open spec fn ambiguous() -> Seq<char> {
    "Java type has multiple possible source files; build configuration and classpath selection were not guessed."@
}

/// The name lies in a project package or type but nothing declares it.
pub open spec fn missing() -> Seq<char> {
    "Java project type was not found; it may be ignored, generated, or outside the scanned source set."@
}

/// `prefix.name`, or `name` alone in the unnamed package.
pub open spec fn qualified(prefix: Seq<char>, name: Seq<char>) -> Seq<char> {
    if prefix.len() == 0 {
        name
    } else {
        prefix + seq!['.'] + name
    }
}

/// Qualifies a name by a package or type.
pub fn qualify(prefix: &str, name: &str) -> (r: String)
    ensures
        r@ == qualified(prefix@, name@),
{
    let p = chars_of(prefix);
    let n = chars_of(name);
    if p.len() == 0 {
        return string_of(&n);
    }
    let mut v = p;
    v.push('.');
    let ghost start = v@;
    let mut i: usize = 0;
    while i < n.len()
        invariant
            i <= n.len(),
            v@ == start + n@.take(i as int),
        decreases n.len() - i,
    {
        v.push(n[i]);
        i += 1;
        assert(v@ =~= start + n@.take(i as int));
    }
    assert(n@.take(n.len() as int) =~= n@);
    string_of(&v)
}

/// One import declaration of a Java file.
pub struct JavaImport {
    pub name: String,
    pub wildcard: bool,
    pub is_static: bool,
}

impl View for JavaImport {
    type V = (Seq<char>, bool, bool);

    open spec fn view(&self) -> (Seq<char>, bool, bool) {
        (self.name@, self.wildcard, self.is_static)
    }
}

/// The views of a list of imports.
pub open spec fn import_views(imports: Seq<JavaImport>) -> Seq<(Seq<char>, bool, bool)> {
    imports.map_values(|i: JavaImport| i@)
}

/// The declared types of the project (each with the files that declare it,
/// once each) and its packages.
pub struct JavaIndex {
    types: StringHashMap<Vec<String>>,
    packages: FileSet,
}

/// The mathematical value of a [`JavaIndex`].
pub struct JavaView {
    pub types: Map<Seq<char>, Seq<Seq<char>>>,
    pub packages: Set<Seq<char>>,
}

impl View for JavaIndex {
    type V = JavaView;

    closed spec fn view(&self) -> JavaView {
        JavaView {
            types: Map::new(
                |q: Seq<char>| self.types@.contains_key(q),
                |q: Seq<char>| texts(self.types@[q]@),
            ),
            packages: self.packages@,
        }
    }
}

/// The type a fully qualified name denotes: its one declaring file, or
/// ambiguity when several files declare it.
pub open spec fn java_lookup(index: JavaView, name: Seq<char>) -> Option<ResolutionView> {
    if index.types.contains_key(name) {
        if index.types[name].len() == 1 {
            Some(ResolutionView::Internal(index.types[name][0]))
        } else {
            Some(ResolutionView::Unresolved(ambiguous()))
        }
    } else {
        None
    }
}

/// Whether some dotted prefix of the name is a project package or type.
pub open spec fn java_local(index: JavaView, name: Seq<char>) -> bool {
    exists|i: int|
        0 <= i < name.len() && name[i] == '.' && (index.packages.contains(#[trigger] name.take(i))
            || index.types.contains_key(name.take(i)))
}

/// Where an import declaration leads: the imported type; for a static import
/// of a member, its owner type; otherwise missing inside the project or
/// external.
pub open spec fn java_import(index: JavaView, import: (Seq<char>, bool, bool)) -> ResolutionView {
    let name = import.0;
    let owner = before_last(name, '.');
    if java_lookup(index, name) is Some {
        java_lookup(index, name).unwrap()
    } else if import.2 && !import.1 && last_index(name, '.') is Some && java_lookup(index, owner) is Some {
        java_lookup(index, owner).unwrap()
    } else if java_local(index, name) {
        ResolutionView::Unresolved(missing())
    } else {
        ResolutionView::External
    }
}

/// Everything before the first `c`, or all of `s`.
pub open spec fn before_first(s: Seq<char>, c: char) -> Seq<char> {
    match first_index(s, c) {
        Some(i) => s.subrange(0, i),
        None => s,
    }
}

/// The names that single-type imports give a reference whose first segment is
/// `first` and whose remainder is `tail`.
pub open spec fn explicit_names(imports: Seq<(Seq<char>, bool, bool)>, first: Seq<char>, tail: Seq<char>) -> Seq<Seq<char>>
    decreases imports.len(),
{
    if imports.len() == 0 {
        Seq::empty()
    } else {
        let rest = explicit_names(imports.drop_last(), first, tail);
        let i = imports.last();
        if !i.1 && after_last(i.0, '.') == first {
            rest.push(i.0 + tail)
        } else {
            rest
        }
    }
}

/// The declared types that on-demand imports make of a reference.
pub open spec fn wildcard_names(index: JavaView, imports: Seq<(Seq<char>, bool, bool)>, reference: Seq<char>) -> Seq<Seq<char>>
    decreases imports.len(),
{
    if imports.len() == 0 {
        Seq::empty()
    } else {
        let rest = wildcard_names(index, imports.drop_last(), reference);
        let i = imports.last();
        if i.1 && index.types.contains_key(qualified(i.0, reference)) {
            rest.push(qualified(i.0, reference))
        } else {
            rest
        }
    }
}

/// Whether every name in the list is the first one.
pub open spec fn all_same(s: Seq<Seq<char>>) -> bool {
    forall|i: int| 0 <= i < s.len() ==> #[trigger] s[i] == s[0]
}

/// Where a type reference in a file of `package` leads, given the file's
/// imports and the type names it declares itself: nothing for its own types;
/// the fully qualified type; the one single-type import that names it; a type
/// of the same package; the one on-demand import that holds it; otherwise
/// missing when it is qualified by a project package, else nothing.
pub open spec fn java_reference(
    index: JavaView,
    package: Seq<char>,
    imports: Seq<(Seq<char>, bool, bool)>,
    locals: Set<Seq<char>>,
    reference: Seq<char>,
) -> Option<ResolutionView> {
    let first = before_first(reference, '.');
    let tail = reference.subrange(first.len() as int, reference.len() as int);
    let explicit = explicit_names(imports, first, tail);
    let on_demand = wildcard_names(index, imports, reference);
    if locals.contains(first) {
        None
    } else if java_lookup(index, reference) is Some {
        java_lookup(index, reference)
    } else if explicit.len() > 0 {
        if !all_same(explicit) {
            Some(ResolutionView::Unresolved(ambiguous()))
        } else if java_lookup(index, explicit[0]) is Some {
            java_lookup(index, explicit[0])
        } else if java_local(index, explicit[0]) {
            Some(ResolutionView::Unresolved(missing()))
        } else {
            None
        }
    } else if java_lookup(index, qualified(package, reference)) is Some {
        java_lookup(index, qualified(package, reference))
    } else if on_demand.len() > 0 && !all_same(on_demand) {
        Some(ResolutionView::Unresolved(ambiguous()))
    } else if on_demand.len() > 0 {
        java_lookup(index, on_demand[0])
    } else if reference.contains('.') && java_local(index, reference) {
        Some(ResolutionView::Unresolved(missing()))
    } else {
        None
    }
}

/// The view of an optional resolution.
pub open spec fn option_view(r: Option<Resolution>) -> Option<ResolutionView> {
    match r {
        Some(x) => Some(x@),
        None => None,
    }
}

fn holds_text(list: &Vec<String>, item: &str) -> (r: bool)
    ensures
        r == texts(list@).contains(item@),
{
    let target = chars_of(item);
    let mut i: usize = 0;
    while i < list.len()
        invariant
            i <= list.len(),
            target@ == item@,
            forall|k: int| 0 <= k < i ==> texts(list@)[k] != item@,
        decreases list.len() - i,
    {
        if vec_same(&chars_of(list[i].as_str()), &target) {
            assert(texts(list@)[i as int] == item@);
            return true;
        }
        i += 1;
    }
    false
}

fn all_equal(names: &Vec<String>) -> (r: bool)
    requires
        names.len() > 0,
    ensures
        r == all_same(texts(names@)),
{
    let first = chars_of(names[0].as_str());
    let mut i: usize = 1;
    while i < names.len()
        invariant
            1 <= i <= names.len(),
            first@ == texts(names@)[0],
            forall|k: int| 0 <= k < i ==> #[trigger] texts(names@)[k] == texts(names@)[0],
        decreases names.len() - i,
    {
        if !vec_same(&chars_of(names[i].as_str()), &first) {
            assert(texts(names@)[i as int] != texts(names@)[0]);
            return false;
        }
        i += 1;
    }
    true
}

impl JavaIndex {
    /// The index of the declarations `(qualified type, declaring file)` and of
    /// the package names of the scanned Java files.
    pub fn new(declarations: &Vec<(String, String)>, packages: &Vec<String>) -> (r: Self)
        ensures
            forall|q: Seq<char>| #[trigger] r@.types.contains_key(q) <==> exists|i: int|
                0 <= i < declarations@.len() && declarations@[i].0@ == q,
            forall|q: Seq<char>, f: Seq<char>| #[trigger] r@.types.contains_key(q) ==> (
            #[trigger] r@.types[q].contains(f) <==> exists|i: int|
                0 <= i < declarations@.len() && declarations@[i].0@ == q && declarations@[i].1@ == f),
            forall|q: Seq<char>| #[trigger] r@.types.contains_key(q) ==> r@.types[q].no_duplicates(),
            forall|p: Seq<char>| r@.packages.contains(p) <==> exists|i: int|
                0 <= i < packages@.len() && #[trigger] packages@[i]@ == p,
    {
        let mut types: StringHashMap<Vec<String>> = StringHashMap::new();
        let mut k: usize = 0;
        while k < declarations.len()
            invariant
                k <= declarations.len(),
                forall|q: Seq<char>| #[trigger] types@.contains_key(q) <==> exists|i: int|
                    0 <= i < k && declarations@[i].0@ == q,
                forall|q: Seq<char>, f: Seq<char>| #[trigger] types@.contains_key(q) ==> (
                #[trigger] texts(types@[q]@).contains(f) <==> exists|i: int|
                    0 <= i < k && declarations@[i].0@ == q && declarations@[i].1@ == f),
                forall|q: Seq<char>| #[trigger] types@.contains_key(q) ==> texts(types@[q]@).no_duplicates(),
            decreases declarations.len() - k,
        {
            let name = &declarations[k].0;
            let file = &declarations[k].1;
            let ghost q0 = name@;
            let ghost f0 = file@;
            let updated: Vec<String> = match types.get(name.as_str()) {
                Some(list) => {
                    if holds_text(list, file.as_str()) {
                        copy_texts(list)
                    } else {
                        let mut copy = copy_texts(list);
                        let ghost before = texts(copy@);
                        copy.push(owned(file.as_str()));
                        assert(texts(copy@) =~= before.push(f0));
                        copy
                    }
                },
                None => {
                    let mut fresh: Vec<String> = Vec::new();
                    fresh.push(owned(file.as_str()));
                    assert(texts(fresh@) =~= seq![f0]);
                    fresh
                },
            };
            let ghost old_types = types@;
            proof {
                if old_types.contains_key(q0) {
                    let l = texts(old_types[q0]@);
                    if l.contains(f0) {
                        assert(texts(updated@) == l);
                    } else {
                        assert(texts(updated@) == l.push(f0));
                        assert(texts(updated@).no_duplicates()) by {
                            assert forall|a: int, b: int| 0 <= a < b < texts(updated@).len() implies texts(updated@)[a]
                                != texts(updated@)[b] by {
                                if b == l.len() {
                                    assert(l[a] == texts(updated@)[a]);
                                }
                            }
                        }
                    }
                }
            }
            types.insert(owned(name.as_str()), updated);
            proof {
                assert forall|q: Seq<char>| #[trigger] types@.contains_key(q) <==> exists|i: int|
                    0 <= i < k + 1 && declarations@[i].0@ == q by {
                    if q == q0 {
                        assert(declarations@[k as int].0@ == q);
                    } else if types@.contains_key(q) {
                        assert(old_types.contains_key(q));
                    } else if exists|i: int| 0 <= i < k + 1 && declarations@[i].0@ == q {
                        let i = choose|i: int| 0 <= i < k + 1 && declarations@[i].0@ == q;
                        assert(i < k);
                    }
                }
                assert forall|q: Seq<char>, f: Seq<char>| #[trigger] types@.contains_key(q) implies (
                #[trigger] texts(types@[q]@).contains(f) <==> exists|i: int|
                    0 <= i < k + 1 && declarations@[i].0@ == q && declarations@[i].1@ == f) by {
                    if q == q0 {
                        if old_types.contains_key(q0) {
                            let l = texts(old_types[q0]@);
                            if texts(types@[q]@).contains(f) && f != f0 {
                                assert(l.contains(f)) by {
                                    if !l.contains(f0) {
                                        let j = choose|j: int| 0 <= j < texts(types@[q]@).len() && texts(types@[q]@)[j] == f;
                                        assert(texts(types@[q]@) == l.push(f0));
                                        assert(j < l.len());
                                        assert(l[j] == f);
                                    }
                                }
                            }
                            if l.contains(f) {
                                let j = choose|j: int| 0 <= j < l.len() && l[j] == f;
                                if !l.contains(f0) {
                                    assert(texts(types@[q]@)[j] == f);
                                }
                            }
                            if f == f0 {
                                assert(declarations@[k as int].1@ == f);
                                if !l.contains(f0) {
                                    assert(texts(types@[q]@)[l.len() as int] == f0);
                                }
                            }
                        } else {
                            if f == f0 {
                                assert(texts(types@[q]@)[0] == f0);
                            }
                            if exists|i: int| 0 <= i < k + 1 && declarations@[i].0@ == q && declarations@[i].1@ == f {
                                let i = choose|i: int| 0 <= i < k + 1 && declarations@[i].0@ == q && declarations@[i].1@ == f;
                                if i < k {
                                    assert(old_types.contains_key(q));
                                }
                            }
                        }
                    } else {
                        assert(old_types.contains_key(q));
                        if exists|i: int| 0 <= i < k + 1 && declarations@[i].0@ == q && declarations@[i].1@ == f {
                            let i = choose|i: int| 0 <= i < k + 1 && declarations@[i].0@ == q && declarations@[i].1@ == f;
                            assert(i < k);
                        }
                    }
                }
                assert forall|q: Seq<char>| #[trigger] types@.contains_key(q) implies texts(types@[q]@).no_duplicates() by {
                    if q != q0 {
                        assert(old_types.contains_key(q));
                    } else if !old_types.contains_key(q0) {
                        assert(texts(types@[q]@).len() == 1);
                    }
                }
            }
            k += 1;
        }
        let r = JavaIndex { types, packages: FileSet::from_ids(packages) };
        assert forall|q: Seq<char>, f: Seq<char>| #[trigger] r@.types.contains_key(q) implies (
        #[trigger] r@.types[q].contains(f) <==> exists|i: int|
            0 <= i < declarations@.len() && declarations@[i].0@ == q && declarations@[i].1@ == f) by {
            assert(r@.types[q] == texts(types@[q]@));
        }
        r
    }

    /// The type a fully qualified name denotes.
    pub fn lookup(&self, qualified: &str) -> (r: Option<Resolution>)
        ensures
            option_view(r) == java_lookup(self@, qualified@),
    {
        match self.types.get(qualified) {
            None => None,
            Some(files) => {
                assert(texts(files@) == self@.types[qualified@]);
                if files.len() == 1 {
                    Some(Resolution::Internal(owned(files[0].as_str())))
                } else {
                    Some(Resolution::Unresolved(
                        "Java type has multiple possible source files; build configuration and classpath selection were not guessed.",
                    ))
                }
            },
        }
    }

    /// Whether a dotted prefix of the name is a project package or type.
    pub fn local_name(&self, name: &str) -> (r: bool)
        ensures
            r == java_local(self@, name@),
    {
        let cs = chars_of(name);
        let mut i: usize = 0;
        while i < cs.len()
            invariant
                i <= cs.len(),
                cs@ == name@,
                forall|j: int| 0 <= j < i && cs@[j] == '.' ==> !(self@.packages.contains(#[trigger] cs@.take(j))
                    || self@.types.contains_key(cs@.take(j))),
            decreases cs.len() - i,
        {
            if cs[i] == '.' {
                let prefix = string_of(&vec_slice(&cs, 0, i));
                assert(prefix@ =~= cs@.take(i as int));
                if self.packages.contains(prefix.as_str()) || self.types.contains_key(prefix.as_str()) {
                    return true;
                }
            }
            i += 1;
        }
        false
    }

    /// Where an import declaration leads.
    pub fn explicit(&self, import: &JavaImport) -> (r: Resolution)
        ensures
            r@ == java_import(self@, import@),
    {
        if let Some(found) = self.lookup(import.name.as_str()) {
            return found;
        }
        let cs = chars_of(import.name.as_str());
        proof {
            lemma_last_index(cs@, '.');
        }
        if import.is_static && !import.wildcard && vec_last_index(&cs, '.').is_some() {
            let owner = string_of(&vec_before_last(&cs, '.'));
            if let Some(found) = self.lookup(owner.as_str()) {
                return found;
            }
        }
        if self.local_name(import.name.as_str()) {
            Resolution::Unresolved(
                "Java project type was not found; it may be ignored, generated, or outside the scanned source set.",
            )
        } else {
            Resolution::External
        }
    }

    /// Where a type reference of a file leads.
    pub fn reference(
        &self,
        package: &str,
        imports: &Vec<JavaImport>,
        locals: &FileSet,
        reference: &str,
    ) -> (r: Option<Resolution>)
        ensures
            option_view(r) == java_reference(self@, package@, import_views(imports@), locals@, reference@),
    {
        let ghost ims = import_views(imports@);
        let cs = chars_of(reference);
        proof {
            lemma_first_index(cs@, '.');
        }
        let first_len = match vec_first_index(&cs, '.') {
            Some(i) => i,
            None => cs.len(),
        };
        let first = string_of(&vec_slice(&cs, 0, first_len));
        let tail = vec_slice(&cs, first_len, cs.len());
        proof {
            if first_index(cs@, '.') is None {
                assert(cs@.subrange(0, cs.len() as int) =~= cs@);
            }
            assert(first@ == before_first(reference@, '.'));
        }
        if locals.contains(first.as_str()) {
            return None;
        }
        if let Some(found) = self.lookup(reference) {
            return Some(found);
        }
        let mut explicit: Vec<String> = Vec::new();
        let mut k: usize = 0;
        while k < imports.len()
            invariant
                k <= imports.len(),
                ims == import_views(imports@),
                texts(explicit@) == explicit_names(ims.take(k as int), first@, tail@),
            decreases imports.len() - k,
        {
            proof {
                assert(ims.take(k + 1).drop_last() =~= ims.take(k as int));
                assert(ims.take(k + 1).last() == imports@[k as int]@);
            }
            let import = &imports[k];
            if !import.wildcard {
                let name = chars_of(import.name.as_str());
                let last = vec_after_last(&name, '.');
                if vec_same(&last, &chars_of(first.as_str())) {
                    let mut full = name.clone();
                    let mut t: usize = 0;
                    let ghost start = full@;
                    while t < tail.len()
                        invariant
                            t <= tail.len(),
                            full@ == start + tail@.take(t as int),
                        decreases tail.len() - t,
                    {
                        full.push(tail[t]);
                        t += 1;
                        assert(full@ =~= start + tail@.take(t as int));
                    }
                    assert(tail@.take(tail.len() as int) =~= tail@);
                    let ghost before = texts(explicit@);
                    let text = string_of(&full);
                    explicit.push(text);
                    assert(texts(explicit@) =~= before.push(text@));
                }
            }
            k += 1;
        }
        assert(ims.take(imports.len() as int) =~= ims);
        if explicit.len() > 0 {
            if !all_equal(&explicit) {
                return Some(Resolution::Unresolved(
                    "Java type has multiple possible source files; build configuration and classpath selection were not guessed.",
                ));
            }
            let name = explicit[0].as_str();
            assert(name@ == texts(explicit@)[0]);
            if let Some(found) = self.lookup(name) {
                return Some(found);
            }
            if self.local_name(name) {
                return Some(Resolution::Unresolved(
                    "Java project type was not found; it may be ignored, generated, or outside the scanned source set.",
                ));
            }
            return None;
        }
        let same_package = qualify(package, reference);
        if let Some(found) = self.lookup(same_package.as_str()) {
            return Some(found);
        }
        let mut on_demand: Vec<String> = Vec::new();
        let mut w: usize = 0;
        while w < imports.len()
            invariant
                w <= imports.len(),
                ims == import_views(imports@),
                texts(on_demand@) == wildcard_names(self@, ims.take(w as int), reference@),
            decreases imports.len() - w,
        {
            proof {
                assert(ims.take(w + 1).drop_last() =~= ims.take(w as int));
                assert(ims.take(w + 1).last() == imports@[w as int]@);
            }
            let import = &imports[w];
            if import.wildcard {
                let name = qualify(import.name.as_str(), reference);
                if self.types.contains_key(name.as_str()) {
                    let ghost before = texts(on_demand@);
                    let ghost text = name@;
                    on_demand.push(name);
                    assert(texts(on_demand@) =~= before.push(text));
                }
            }
            w += 1;
        }
        assert(ims.take(imports.len() as int) =~= ims);
        if on_demand.len() > 0 {
            if !all_equal(&on_demand) {
                return Some(Resolution::Unresolved(
                    "Java type has multiple possible source files; build configuration and classpath selection were not guessed.",
                ));
            }
            let name = on_demand[0].as_str();
            assert(name@ == texts(on_demand@)[0]);
            return self.lookup(name);
        }
        let mut dotted = false;
        let mut d: usize = 0;
        while d < cs.len()
            invariant
                d <= cs.len(),
                cs@ == reference@,
                dotted == exists|j: int| 0 <= j < d && cs@[j] == '.',
            decreases cs.len() - d,
        {
            if cs[d] == '.' {
                dotted = true;
            }
            d += 1;
        }
        if dotted && self.local_name(reference) {
            Some(Resolution::Unresolved(
                "Java project type was not found; it may be ignored, generated, or outside the scanned source set.",
            ))
        } else {
            None
        }
    }
}

/// Single-type imports whose simple name is not `first` give no names.
proof fn lemma_no_explicit(imports: Seq<(Seq<char>, bool, bool)>, first: Seq<char>, tail: Seq<char>)
    requires
        forall|k: int| 0 <= k < imports.len() ==> (#[trigger] imports[k]).1 || after_last(imports[k].0, '.') != first,
    ensures
        explicit_names(imports, first, tail).len() == 0,
    decreases imports.len(),
{
    if imports.len() > 0 {
        assert forall|k: int| 0 <= k < imports.drop_last().len() implies (#[trigger] imports.drop_last()[k]).1
            || after_last(imports.drop_last()[k].0, '.') != first by {
            assert(imports.drop_last()[k] == imports[k]);
        }
        lemma_no_explicit(imports.drop_last(), first, tail);
        assert(imports.last() == imports[imports.len() - 1]);
    }
}

/// Law: a type of the file's own package needs no import. When the reference
/// is not a name of the file, not itself a declared type, and no single-type
/// import names its first segment, a type `package.reference` declared by one
/// file resolves to that file.
pub proof fn law_same_package_type(
    index: JavaView,
    package: Seq<char>,
    imports: Seq<(Seq<char>, bool, bool)>,
    locals: Set<Seq<char>>,
    reference: Seq<char>,
    file: Seq<char>,
)
    requires
        !locals.contains(before_first(reference, '.')),
        !index.types.contains_key(reference),
        forall|k: int| 0 <= k < imports.len() ==> (#[trigger] imports[k]).1 || after_last(imports[k].0, '.')
            != before_first(reference, '.'),
        index.types.contains_key(qualified(package, reference)),
        index.types[qualified(package, reference)] == seq![file],
    ensures
        java_reference(index, package, imports, locals, reference) == Some(ResolutionView::Internal(file)),
{
    let first = before_first(reference, '.');
    lemma_no_explicit(imports, first, reference.subrange(first.len() as int, reference.len() as int));
}

/// Law: a type name that the file declares itself leads nowhere else.
pub proof fn law_own_types_stay_local(
    index: JavaView,
    package: Seq<char>,
    imports: Seq<(Seq<char>, bool, bool)>,
    locals: Set<Seq<char>>,
    reference: Seq<char>,
)
    requires
        locals.contains(before_first(reference, '.')),
    ensures
        java_reference(index, package, imports, locals, reference) is None,
{
}

/// Law: a fully qualified name of a declared type resolves to that type's
/// file, whatever the imports, unless the file declares its first segment.
pub proof fn law_qualified_names_resolve(
    index: JavaView,
    package: Seq<char>,
    imports: Seq<(Seq<char>, bool, bool)>,
    locals: Set<Seq<char>>,
    reference: Seq<char>,
    file: Seq<char>,
)
    requires
        !locals.contains(before_first(reference, '.')),
        index.types.contains_key(reference),
        index.types[reference] == seq![file],
    ensures
        java_reference(index, package, imports, locals, reference) == Some(ResolutionView::Internal(file)),
{
}

/// The one single-type import named `first` gives the one explicit name.
proof fn lemma_one_explicit(imports: Seq<(Seq<char>, bool, bool)>, first: Seq<char>, tail: Seq<char>, m: int)
    requires
        0 <= m < imports.len(),
        !imports[m].1,
        after_last(imports[m].0, '.') == first,
        forall|k: int| 0 <= k < imports.len() && k != m ==> (#[trigger] imports[k]).1 || after_last(imports[k].0, '.') != first,
    ensures
        explicit_names(imports, first, tail) == seq![imports[m].0 + tail],
    decreases imports.len(),
{
    let last = imports.len() - 1;
    if m < last {
        assert forall|k: int| 0 <= k < imports.drop_last().len() && k != m implies (#[trigger] imports.drop_last()[k]).1
            || after_last(imports.drop_last()[k].0, '.') != first by {
            assert(imports.drop_last()[k] == imports[k]);
        }
        assert(imports.drop_last()[m] == imports[m]);
        lemma_one_explicit(imports.drop_last(), first, tail, m);
        assert(imports.last() == imports[last]);
    } else {
        assert forall|k: int| 0 <= k < imports.drop_last().len() implies (#[trigger] imports.drop_last()[k]).1
            || after_last(imports.drop_last()[k].0, '.') != first by {
            assert(imports.drop_last()[k] == imports[k]);
        }
        lemma_no_explicit(imports.drop_last(), first, tail);
        assert(imports.last() == imports[m]);
        assert(explicit_names(imports.drop_last(), first, tail) =~= Seq::<Seq<char>>::empty());
    }
}

/// Law: a single-type import decides its simple name. When exactly one such
/// import ends in the reference's first segment, and the reference is neither
/// a name of the file nor itself a declared type, the imported type (with the
/// rest of the reference appended) resolves to its one declaring file.
pub proof fn law_single_type_import(
    index: JavaView,
    package: Seq<char>,
    imports: Seq<(Seq<char>, bool, bool)>,
    locals: Set<Seq<char>>,
    reference: Seq<char>,
    m: int,
    file: Seq<char>,
)
    requires
        !locals.contains(before_first(reference, '.')),
        !index.types.contains_key(reference),
        0 <= m < imports.len(),
        !imports[m].1,
        after_last(imports[m].0, '.') == before_first(reference, '.'),
        forall|k: int| 0 <= k < imports.len() && k != m ==> (#[trigger] imports[k]).1 || after_last(imports[k].0, '.')
            != before_first(reference, '.'),
        index.types.contains_key(imports[m].0 + reference.subrange(before_first(reference, '.').len() as int, reference.len() as int)),
        index.types[imports[m].0 + reference.subrange(before_first(reference, '.').len() as int, reference.len() as int)] == seq![file],
    ensures
        java_reference(index, package, imports, locals, reference) == Some(ResolutionView::Internal(file)),
{
    let first = before_first(reference, '.');
    let tail = reference.subrange(first.len() as int, reference.len() as int);
    lemma_one_explicit(imports, first, tail, m);
    let e = explicit_names(imports, first, tail);
    assert(all_same(e));
}

} // verus!
