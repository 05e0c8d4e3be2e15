//! Python's module lookup over the scanned files: regular packages, plain
//! modules, typing stubs and namespace packages, below the project folder and
//! its conventional `src` folder. Nothing is imported or executed.
use vstd::prelude::*;
use crate::model::FileSet;
use crate::paths::{child_path, nested};
use crate::resolver::{Resolution, ResolutionView};
use crate::text_util::{
    chars_of, drop_empty, has_suffix, nonempty, owned, split_on, string_of, vec_has_suffix,
    vec_slice, vec_split, views,
};
use crate::order::texts;

verus! {

/// A project module that Python could not find.
pub open spec fn missing() -> Seq<char> {
    "Python 项目内模块未找到；目标可能不存在、被忽略或使用自定义导入路径。"@
}

/// An import that both source roots could satisfy.
pub open spec fn ambiguous() -> Seq<char> {
    "Python 导入在项目根目录与 src 目录中存在多个候选；未猜测 sys.path 顺序。"@
}

/// A relative import above the top of the package.
pub open spec fn outside() -> Seq<char> {
    "Python 相对导入超出可确定的包范围。"@
}

/// A Python source or stub file.
pub open spec fn python_file(id: Seq<char>) -> bool {
    has_suffix(id, seq!['.', 'p', 'y']) || has_suffix(id, seq!['.', 'p', 'y', 'i'])
}

/// Whether `id` is a Python source or stub file.
pub fn is_python(id: &str) -> (r: bool)
    ensures
        r == python_file(id@),
{
    let cs = chars_of(id);
    let py = vec!['.', 'p', 'y'];
    let pyi = vec!['.', 'p', 'y', 'i'];
    assert(py@ =~= seq!['.', 'p', 'y']);
    assert(pyi@ =~= seq!['.', 'p', 'y', 'i']);
    vec_has_suffix(&cs, &py) || vec_has_suffix(&cs, &pyi)
}

/// `base.member`, without doubling a trailing dot of `base`.
pub open spec fn member_of(base: Seq<char>, member: Seq<char>) -> Seq<char> {
    if base.len() > 0 && base.last() == '.' {
        base + member
    } else {
        base + seq!['.'] + member
    }
}

/// The dotted name under which a member import is reported.
pub fn member_specifier(base: &str, member: &str) -> (r: String)
    ensures
        r@ == member_of(base@, member@),
{
    let mut v = chars_of(base);
    let m = chars_of(member);
    if !(v.len() > 0 && v[v.len() - 1] == '.') {
        v.push('.');
    }
    let ghost start = v@;
    let mut i: usize = 0;
    while i < m.len()
        invariant
            i <= m.len(),
            v@ == start + m@.take(i as int),
        decreases m.len() - i,
    {
        v.push(m[i]);
        i += 1;
        assert(v@ =~= start + m@.take(i as int));
    }
    assert(m@.take(m.len() as int) =~= m@);
    string_of(&v)
}

/// How a dotted name was found: a module file, a regular package (with an
/// initializer) or a namespace package (a directory only).
#[derive(Clone, Copy, PartialEq, Eq, Structural, Debug)]
pub enum ModuleKind {
    File,
    Package,
    Namespace,
}

/// A module that an import names.
pub struct Found {
    /// Every package initializer loaded on the way, then the target file.
    pub files: Vec<String>,
    /// The path of the module, without extension.
    pub base: String,
    /// Further bases of a namespace package that spans both source roots.
    pub alternatives: Vec<String>,
    pub kind: ModuleKind,
}

/// The mathematical value of a [`Found`].
pub struct FoundView {
    pub files: Seq<Seq<char>>,
    pub base: Seq<char>,
    pub alternatives: Seq<Seq<char>>,
    pub kind: ModuleKind,
}

impl View for Found {
    type V = FoundView;

    open spec fn view(&self) -> FoundView {
        FoundView {
            files: texts(self.files@),
            base: self.base@,
            alternatives: texts(self.alternatives@),
            kind: self.kind,
        }
    }
}

/// The scanned files and the directories above Python files, and whether
/// `src` is a source root besides the project folder.
pub struct PythonIndex {
    known: FileSet,
    directories: FileSet,
    src_root: bool,
}

/// The mathematical value of a [`PythonIndex`].
pub struct IndexView {
    pub known: Set<Seq<char>>,
    pub directories: Set<Seq<char>>,
    pub src_root: bool,
}

impl View for PythonIndex {
    type V = IndexView;

    closed spec fn view(&self) -> IndexView {
        IndexView { known: self.known@, directories: self.directories@, src_root: self.src_root }
    }
}

/// Every directory that holds a Python file, at any depth.
pub open spec fn python_directories(ids: Seq<Seq<char>>) -> Set<Seq<char>> {
    Set::new(
        |d: Seq<char>|
            exists|k: int, i: int|
                0 <= k < ids.len() && python_file(ids[k]) && 0 <= i < ids[k].len() && ids[k][i]
                    == '/' && #[trigger] ids[k].take(i) == d,
    )
}

/// The characters `src`.
pub open spec fn src() -> Seq<char> {
    seq!['s', 'r', 'c']
}

/// The source roots: the project folder, and `src` when it holds Python code
/// but is not itself a package.
pub open spec fn roots(index: IndexView) -> Seq<Seq<char>> {
    if index.src_root {
        seq![Seq::empty(), src()]
    } else {
        seq![Seq::empty()]
    }
}

/// The file of a module: its source when scanned, else its typing stub.
pub open spec fn concrete(index: IndexView, stem: Seq<char>) -> Option<Seq<char>> {
    if index.known.contains(stem + seq!['.', 'p', 'y']) {
        Some(stem + seq!['.', 'p', 'y'])
    } else if index.known.contains(stem + seq!['.', 'p', 'y', 'i']) {
        Some(stem + seq!['.', 'p', 'y', 'i'])
    } else {
        None
    }
}

/// The characters `__init__`.
pub open spec fn init() -> Seq<char> {
    seq!['_', '_', 'i', 'n', 'i', 't', '_', '_']
}

/// What lies at a module path: a package with its initializer, a module file,
/// a namespace directory, or nothing.
pub open spec fn module_at(index: IndexView, base: Seq<char>) -> Option<(ModuleKind, Option<Seq<char>>)> {
    if concrete(index, nested(base, init())) is Some {
        Some((ModuleKind::Package, concrete(index, nested(base, init()))))
    } else if concrete(index, base) is Some {
        Some((ModuleKind::File, concrete(index, base)))
    } else if index.directories.contains(base) {
        Some((ModuleKind::Namespace, None))
    } else {
        None
    }
}

/// The walk from `root` down the given name parts: the path reached, the files
/// loaded and the kind of the last part; `None` when a part is missing or a
/// module file is followed by further parts.
pub open spec fn descend(index: IndexView, root: Seq<char>, parts: Seq<Seq<char>>) -> Option<
    (Seq<char>, Seq<Seq<char>>, ModuleKind),
>
    decreases parts.len(),
{
    if parts.len() == 0 {
        Some((root, Seq::empty(), ModuleKind::Namespace))
    } else {
        match descend(index, root, parts.drop_last()) {
            None => None,
            Some((path, files, kind)) => if parts.len() > 1 && kind == ModuleKind::File {
                None
            } else {
                let next = nested(path, parts.last());
                match module_at(index, next) {
                    None => None,
                    Some((k, file)) => Some(
                        (
                            next,
                            match file {
                                Some(f) => files.push(f),
                                None => files,
                            },
                            k,
                        ),
                    ),
                }
            },
        }
    }
}

/// The module that the name parts denote below `root`.
pub open spec fn lookup(index: IndexView, root: Seq<char>, parts: Seq<Seq<char>>) -> Option<FoundView> {
    match descend(index, root, parts) {
        None => None,
        Some((path, files, kind)) => Some(
            FoundView { files, base: path, alternatives: Seq::empty(), kind },
        ),
    }
}

/// The found modules of every source root that holds the name, in root order.
pub open spec fn candidates(index: IndexView, parts: Seq<Seq<char>>) -> Seq<FoundView> {
    let first = lookup(index, Seq::empty(), parts);
    let second = if index.src_root {
        lookup(index, src(), parts)
    } else {
        None
    };
    match (first, second) {
        (Some(a), Some(b)) => seq![a, b],
        (Some(a), None) => seq![a],
        (None, Some(b)) => seq![b],
        (None, None) => Seq::empty(),
    }
}

/// An absolute import: the one module it names in a source root; one
/// namespace package spanning both roots (the other base kept as an
/// alternative); `External` when no root holds its first part; and otherwise
/// the reason it is unresolved.
pub open spec fn absolute_of(index: IndexView, specifier: Seq<char>) -> Result<FoundView, ResolutionView> {
    let parts = nonempty(split_on(specifier, '.'));
    let found = candidates(index, parts);
    if parts.len() == 0 {
        Err(ResolutionView::Unresolved(missing()))
    } else if found.len() == 1 {
        Ok(found[0])
    } else if found.len() == 0 {
        if module_at(index, nested(Seq::empty(), parts[0])) is Some || (index.src_root && module_at(
            index,
            nested(src(), parts[0]),
        ) is Some) {
            Err(ResolutionView::Unresolved(missing()))
        } else {
            Err(ResolutionView::External)
        }
    } else if found[0].kind == ModuleKind::Namespace && found[0].files.len() == 0 && found[1].kind
        == ModuleKind::Namespace && found[1].files.len() == 0 {
        Ok(FoundView { alternatives: seq![found[1].base], ..found[0] })
    } else {
        Err(ResolutionView::Unresolved(ambiguous()))
    }
}

/// How many dots a relative import starts with.
pub open spec fn dots(s: Seq<char>) -> nat
    decreases s.len(),
{
    if s.len() > 0 && s[0] == '.' {
        1 + dots(s.subrange(1, s.len() as int))
    } else {
        0
    }
}

/// `s` without its leading slashes.
pub open spec fn trim_slashes(s: Seq<char>) -> Seq<char>
    decreases s.len(),
{
    if s.len() > 0 && s[0] == '/' {
        trim_slashes(s.subrange(1, s.len() as int))
    } else {
        s
    }
}

/// The source root that holds an importer's directory.
pub open spec fn root_of(index: IndexView, directory: Seq<char>) -> Seq<char> {
    if index.src_root && (crate::text_util::has_prefix(directory, seq!['s', 'r', 'c', '/'])
        || directory == src()) {
        src()
    } else {
        Seq::empty()
    }
}

/// A relative import from `importer`: each dot after the first climbs one
/// package; `None`-like refusals are reported as unresolved.
pub open spec fn relative_of(index: IndexView, importer: Seq<char>, specifier: Seq<char>) -> Result<
    FoundView,
    ResolutionView,
> {
    let level = dots(specifier);
    let directory = crate::text_util::before_last(importer, '/');
    let root = root_of(index, directory);
    let local = trim_slashes(directory.subrange(root.len() as int, directory.len() as int));
    let parts = nonempty(split_on(local, '/'));
    if level > parts.len() {
        Err(ResolutionView::Unresolved(outside()))
    } else {
        let kept = if level == 0 {
            parts
        } else {
            parts.take(parts.len() + 1 - level)
        };
        let named = kept + nonempty(split_on(specifier.subrange(level as int, specifier.len() as int), '.'));
        match lookup(index, root, named) {
            Some(f) => Ok(f),
            None => Err(ResolutionView::Unresolved(missing())),
        }
    }
}

/// The view of a lookup answer.
pub open spec fn answer_view(r: Result<Found, Resolution>) -> Result<FoundView, ResolutionView> {
    match r {
        Ok(f) => Ok(f@),
        Err(e) => Err(e@),
    }
}

impl PythonIndex {
    /// The index of the scanned files `ids`, with `known` holding the same
    /// identifiers.
    pub fn new(ids: &Vec<String>, known: FileSet) -> (r: Self)
        requires
            forall|s: Seq<char>| known@.contains(s) <==> texts(ids@).contains(s),
        ensures
            r@.known == known@,
            r@.directories == python_directories(texts(ids@)),
            r@.src_root == (python_directories(texts(ids@)).contains(src()) && !known@.contains(
                seq!['s', 'r', 'c', '/', '_', '_', 'i', 'n', 'i', 't', '_', '_', '.', 'p', 'y'],
            ) && !known@.contains(
                seq!['s', 'r', 'c', '/', '_', '_', 'i', 'n', 'i', 't', '_', '_', '.', 'p', 'y', 'i'],
            )),
    {
        let ghost all = texts(ids@);
        let mut directories = FileSet::new();
        let mut k: usize = 0;
        while k < ids.len()
            invariant
                k <= ids.len(),
                all == texts(ids@),
                forall|d: Seq<char>| directories@.contains(d) <==> python_directories(all.take(k as int)).contains(d),
            decreases ids.len() - k,
        {
            let id = chars_of(ids[k].as_str());
            assert(all[k as int] == id@);
            let python = is_python(ids[k].as_str());
            let mut i: usize = 0;
            while i < id.len()
                invariant
                    k < ids.len(),
                    all == texts(ids@),
                    all[k as int] == id@,
                    python == python_file(id@),
                    i <= id.len(),
                    forall|d: Seq<char>| directories@.contains(d) <==> (python_directories(all.take(k as int)).contains(d)
                        || (python && exists|j: int| 0 <= j < i && id@[j] == '/' && #[trigger] id@.take(j) == d)),
                decreases id.len() - i,
            {
                if python && id[i] == '/' {
                    let prefix = vec_slice(&id, 0, i);
                    assert(prefix@ =~= id@.take(i as int));
                    directories.insert(string_of(&prefix).as_str());
                    assert forall|d: Seq<char>| directories@.contains(d) <==> (python_directories(all.take(k as int)).contains(d)
                        || (python && exists|j: int| 0 <= j < i + 1 && id@[j] == '/' && #[trigger] id@.take(j) == d)) by {
                        if d == id@.take(i as int) {
                            assert(id@[i as int] == '/');
                        }
                    }
                }
                i += 1;
            }
            proof {
                assert forall|d: Seq<char>| directories@.contains(d) <==> python_directories(all.take(k + 1)).contains(d) by {
                    let before = all.take(k as int);
                    let after = all.take(k + 1);
                    if python_directories(before).contains(d) {
                        let (a, b) = choose|a: int, b: int|
                            0 <= a < before.len() && python_file(before[a]) && 0 <= b < before[a].len() && before[a][b]
                                == '/' && #[trigger] before[a].take(b) == d;
                        assert(after[a] == before[a]);
                    }
                    if python && exists|j: int| 0 <= j < id@.len() && id@[j] == '/' && #[trigger] id@.take(j) == d {
                        let j = choose|j: int| 0 <= j < id@.len() && id@[j] == '/' && #[trigger] id@.take(j) == d;
                        assert(after[k as int] == id@);
                        assert(after[k as int].take(j) == d);
                    }
                    if python_directories(after).contains(d) {
                        let (a, b) = choose|a: int, b: int|
                            0 <= a < after.len() && python_file(after[a]) && 0 <= b < after[a].len() && after[a][b]
                                == '/' && #[trigger] after[a].take(b) == d;
                        if a < k {
                            assert(before[a] == after[a]);
                        } else {
                            assert(after[a] == id@);
                        }
                    }
                }
            }
            k += 1;
        }
        assert(all.take(ids.len() as int) =~= all);
        let src_dir = directories.contains("src");
        let init_py = known.contains("src/__init__.py");
        let init_pyi = known.contains("src/__init__.pyi");
        proof {
            reveal_strlit("src");
            reveal_strlit("src/__init__.py");
            reveal_strlit("src/__init__.pyi");
            assert("src"@ =~= src());
            assert("src/__init__.py"@ =~= seq!['s', 'r', 'c', '/', '_', '_', 'i', 'n', 'i', 't', '_', '_', '.', 'p', 'y']);
            assert("src/__init__.pyi"@ =~= seq!['s', 'r', 'c', '/', '_', '_', 'i', 'n', 'i', 't', '_', '_', '.', 'p', 'y', 'i']);
        }
        PythonIndex { known, directories, src_root: src_dir && !init_py && !init_pyi }
    }

    /// The file of a module stem: the source, else the stub.
    fn concrete(&self, stem: &str) -> (r: Option<String>)
        ensures
            match r {
                Some(s) => concrete(self@, stem@) == Some(s@),
                None => concrete(self@, stem@) is None,
            },
    {
        let mut py = chars_of(stem);
        let mut pyi = chars_of(stem);
        py.push('.');
        py.push('p');
        py.push('y');
        pyi.push('.');
        pyi.push('p');
        pyi.push('y');
        pyi.push('i');
        assert(py@ =~= stem@ + seq!['.', 'p', 'y']);
        assert(pyi@ =~= stem@ + seq!['.', 'p', 'y', 'i']);
        let py = string_of(&py);
        let pyi = string_of(&pyi);
        if self.known.contains(py.as_str()) {
            Some(py)
        } else if self.known.contains(pyi.as_str()) {
            Some(pyi)
        } else {
            None
        }
    }

    /// What lies at a module path.
    pub fn at(&self, base: &str) -> (r: Option<(ModuleKind, Option<String>)>)
        ensures
            match r {
                None => module_at(self@, base@) is None,
                Some((k, None)) => module_at(self@, base@) == Some((k, None::<Seq<char>>)),
                Some((k, Some(f))) => module_at(self@, base@) == Some((k, Some(f@))),
            },
    {
        let initializer_stem = child_path(base, "__init__");
        proof {
            reveal_strlit("__init__");
            assert("__init__"@ =~= init());
        }
        if let Some(initializer) = self.concrete(initializer_stem.as_str()) {
            Some((ModuleKind::Package, Some(initializer)))
        } else if let Some(module) = self.concrete(base) {
            Some((ModuleKind::File, Some(module)))
        } else if self.directories.contains(base) {
            Some((ModuleKind::Namespace, None))
        } else {
            None
        }
    }

    /// The module that the name parts denote below `root`.
    pub fn lookup(&self, root: &str, parts: &Vec<String>) -> (r: Option<Found>)
        ensures
            match r {
                Some(f) => lookup(self@, root@, texts(parts@)) == Some(f@),
                None => lookup(self@, root@, texts(parts@)) is None,
            },
    {
        let ghost ps = texts(parts@);
        let mut path = owned(root);
        let mut files: Vec<String> = Vec::new();
        let mut kind = ModuleKind::Namespace;
        let mut i: usize = 0;
        proof {
            assert(ps.take(0) =~= Seq::<Seq<char>>::empty());
            assert(texts(files@) =~= Seq::<Seq<char>>::empty());
        }
        while i < parts.len()
            invariant
                i <= parts.len(),
                ps == texts(parts@),
                descend(self@, root@, ps.take(i as int)) == Some((path@, texts(files@), kind)),
            decreases parts.len() - i,
        {
            proof {
                assert(ps.take(i + 1).drop_last() =~= ps.take(i as int));
                assert(ps.take(i + 1).last() == parts@[i as int]@);
            }
            if i > 0 && kind == ModuleKind::File {
                proof {
                    lemma_descend_stuck(self@, root@, ps, i + 1, parts.len() as int);
                    assert(ps.take(parts.len() as int) =~= ps);
                }
                return None;
            }
            let next = child_path(path.as_str(), parts[i].as_str());
            match self.at(next.as_str()) {
                None => {
                    proof {
                        lemma_descend_stuck(self@, root@, ps, i + 1, parts.len() as int);
                        assert(ps.take(parts.len() as int) =~= ps);
                    }
                    return None;
                },
                Some((k, file)) => {
                    let ghost before = texts(files@);
                    match file {
                        Some(f) => {
                            files.push(f);
                            assert(texts(files@) =~= before.push(files@.last()@));
                        },
                        None => {},
                    }
                    kind = k;
                    path = next;
                },
            }
            i += 1;
        }
        assert(ps.take(parts.len() as int) =~= ps);
        let r = Found { files, base: path, alternatives: Vec::new(), kind };
        assert(texts(r.alternatives@) =~= Seq::<Seq<char>>::empty());
        Some(r)
    }

    /// Resolves an absolute dotted import.
    pub fn absolute(&self, specifier: &str) -> (r: Result<Found, Resolution>)
        ensures
            answer_view(r) == absolute_of(self@, specifier@),
    {
        let pieces = drop_empty(vec_split(&chars_of(specifier), '.'));
        let mut parts: Vec<String> = Vec::new();
        let mut i: usize = 0;
        while i < pieces.len()
            invariant
                i <= pieces.len(),
                texts(parts@) == views(pieces@).take(i as int),
            decreases pieces.len() - i,
        {
            let piece = string_of(&pieces[i]);
            assert(piece@ == views(pieces@)[i as int]);
            let ghost before = texts(parts@);
            parts.push(piece);
            assert(texts(parts@) =~= before.push(piece@));
            i += 1;
            assert(views(pieces@).take(i as int) =~= views(pieces@).take(i - 1).push(views(pieces@)[i - 1]));
        }
        assert(views(pieces@).take(pieces.len() as int) =~= views(pieces@));
        let ghost ps = texts(parts@);
        assert(ps == nonempty(split_on(specifier@, '.')));
        if parts.len() == 0 {
            return Err(Resolution::Unresolved("Python 项目内模块未找到；目标可能不存在、被忽略或使用自定义导入路径。"));
        }
        let first = self.lookup("", &parts);
        let second = if self.src_root {
            self.lookup("src", &parts)
        } else {
            None
        };
        proof {
            reveal_strlit("");
            reveal_strlit("src");
            assert(""@ =~= Seq::<char>::empty());
            assert("src"@ =~= src());
        }
        match (first, second) {
            (Some(a), None) => Ok(a),
            (None, Some(b)) => Ok(b),
            (None, None) => {
                let head = parts[0].as_str();
                let in_top = self.at(child_path("", head).as_str()).is_some();
                let in_src = self.src_root && self.at(child_path("src", head).as_str()).is_some();
                if in_top || in_src {
                    Err(Resolution::Unresolved("Python 项目内模块未找到；目标可能不存在、被忽略或使用自定义导入路径。"))
                } else {
                    Err(Resolution::External)
                }
            },
            (Some(a), Some(b)) => {
                if a.kind == ModuleKind::Namespace && a.files.len() == 0 && b.kind
                    == ModuleKind::Namespace && b.files.len() == 0 {
                    let alternatives = vec![b.base];
                    let r = Found { files: a.files, base: a.base, alternatives, kind: a.kind };
                    assert(texts(r.alternatives@) =~= seq![r.alternatives@[0]@]);
                    Ok(r)
                } else {
                    Err(Resolution::Unresolved("Python 导入在项目根目录与 src 目录中存在多个候选；未猜测 sys.path 顺序。"))
                }
            },
        }
    }

    /// Resolves a relative import (one that starts with a dot) from `importer`.
    pub fn relative(&self, importer: &str, specifier: &str) -> (r: Result<Found, Resolution>)
        ensures
            answer_view(r) == relative_of(self@, importer@, specifier@),
    {
        let s = chars_of(specifier);
        let mut level: usize = 0;
        assert(s@.subrange(0, s.len() as int) =~= s@);
        while level < s.len() && s[level] == '.'
            invariant
                level <= s.len(),
                s@ == specifier@,
                forall|k: int| 0 <= k < level ==> s@[k] == '.',
                dots(s@.subrange(level as int, s.len() as int)) + level == dots(s@),
            decreases s.len() - level,
        {
            assert(s@.subrange(level as int, s.len() as int).subrange(1, s.len() - level) =~= s@.subrange(
                level + 1,
                s.len() as int,
            ));
            level += 1;
        }
        assert(s@.subrange(0, s.len() as int) =~= s@) by {
        }
        let directory = chars_of(crate::paths::parent(importer).as_str());
        let src_prefix = vec!['s', 'r', 'c', '/'];
        let src_word = vec!['s', 'r', 'c'];
        assert(src_prefix@ =~= seq!['s', 'r', 'c', '/']);
        assert(src_word@ =~= src());
        let in_src = self.src_root && (crate::text_util::vec_has_prefix(&directory, &src_prefix)
            || crate::text_util::vec_same(&directory, &src_word));
        let root_len: usize = if in_src { 3 } else { 0 };
        let mut start = root_len;
        assert(directory@.subrange(start as int, directory.len() as int) =~= directory@.subrange(
            root_len as int,
            directory@.len() as int,
        ));
        while start < directory.len() && directory[start] == '/'
            invariant
                root_len <= start <= directory.len(),
                trim_slashes(directory@.subrange(start as int, directory.len() as int)) == trim_slashes(
                    directory@.subrange(root_len as int, directory.len() as int),
                ),
            decreases directory.len() - start,
        {
            assert(directory@.subrange(start as int, directory.len() as int).subrange(
                1,
                directory.len() - start,
            ) =~= directory@.subrange(start + 1, directory.len() as int));
            start += 1;
        }
        let local = vec_slice(&directory, start, directory.len());
        let pieces = drop_empty(vec_split(&local, '/'));
        if level > pieces.len() {
            return Err(Resolution::Unresolved("Python 相对导入超出可确定的包范围。"));
        }
        let keep = pieces.len() - level;
        let tail = vec_slice(&s, level, s.len());
        let rest = drop_empty(vec_split(&tail, '.'));
        let mut parts: Vec<String> = Vec::new();
        let mut i: usize = 0;
        while i <= keep && i < pieces.len()
            invariant
                i <= pieces.len(),
                i <= keep + 1,
                texts(parts@) == views(pieces@).take(i as int),
            decreases pieces.len() - i,
        {
            let piece = string_of(&pieces[i]);
            assert(piece@ == views(pieces@)[i as int]);
            let ghost before = texts(parts@);
            parts.push(piece);
            assert(texts(parts@) =~= before.push(piece@));
            i += 1;
            assert(views(pieces@).take(i as int) =~= views(pieces@).take(i - 1).push(views(pieces@)[i - 1]));
        }
        let ghost kept = texts(parts@);
        proof {
            if level == 0 {
                assert(views(pieces@).take(pieces.len() as int) =~= views(pieces@));
            }
        }
        let mut j: usize = 0;
        while j < rest.len()
            invariant
                j <= rest.len(),
                texts(parts@) == kept + views(rest@).take(j as int),
            decreases rest.len() - j,
        {
            let piece = string_of(&rest[j]);
            assert(piece@ == views(rest@)[j as int]);
            let ghost before = texts(parts@);
            parts.push(piece);
            assert(texts(parts@) =~= before.push(piece@));
            j += 1;
            assert(views(rest@).take(j as int) =~= views(rest@).take(j - 1).push(views(rest@)[j - 1]));
            assert(texts(parts@) =~= kept + views(rest@).take(j as int));
        }
        assert(views(rest@).take(rest.len() as int) =~= views(rest@));
        let root = if in_src { "src" } else { "" };
        proof {
            reveal_strlit("");
            reveal_strlit("src");
            assert(level == dots(s@));
            let d = crate::text_util::before_last(importer@, '/');
            assert(directory@ == d);
            assert(root@ == root_of(self@, d));
            assert(local@ == trim_slashes(d.subrange(root_of(self@, d).len() as int, d.len() as int)));
            let ps = nonempty(split_on(local@, '/'));
            assert(views(pieces@) == ps);
            let k = if level == 0 {
                ps
            } else {
                ps.take(ps.len() + 1 - level)
            };
            assert(kept == k);
            assert(texts(parts@) == k + nonempty(split_on(specifier@.subrange(level as int, specifier@.len() as int), '.')));
        }
        match self.lookup(root, &parts) {
            Some(f) => Ok(f),
            None => Err(Resolution::Unresolved("Python 项目内模块未找到；目标可能不存在、被忽略或使用自定义导入路径。")),
        }
    }
}

proof fn lemma_descend_stuck(index: IndexView, root: Seq<char>, parts: Seq<Seq<char>>, i: int, j: int)
    requires
        1 <= i <= j <= parts.len(),
        descend(index, root, parts.take(i)) is None,
    ensures
        descend(index, root, parts.take(j)) is None,
    decreases j - i,
{
    if i < j {
        lemma_descend_stuck(index, root, parts, i, j - 1);
        assert(parts.take(j).drop_last() =~= parts.take(j - 1));
    }
}

/// A package export computed at run time may be the member.
pub open spec fn dynamic_export() -> Seq<char> {
    "Python 包导出可能由 __getattr__ 动态生成；未猜测同名子模块。"@
}

/// The member is neither a static export nor a scanned submodule.
pub open spec fn unknown_member() -> Seq<char> {
    "Python 包成员未在静态导出或已扫描子模块中找到；未猜测文件依赖。"@
}

/// A file edge of a found module: every file loaded on the way except the
/// importer itself, which counts only as the explicit target of the import.
pub open spec fn emitted(importer: Seq<char>, specifier: Seq<char>, files: Seq<Seq<char>>, explicit: bool, n: int) -> Seq<(Seq<char>, ResolutionView)>
    decreases n,
{
    if n <= 0 {
        Seq::empty()
    } else {
        let rest = emitted(importer, specifier, files, explicit, n - 1);
        let file = files[n - 1];
        if file != importer || (explicit && n == files.len()) {
            rest.push((specifier, ResolutionView::Internal(file)))
        } else {
            rest
        }
    }
}

/// The views of a list of reported imports.
pub open spec fn report_views(v: Seq<(String, Resolution)>) -> Seq<(Seq<char>, ResolutionView)> {
    v.map_values(|x: (String, Resolution)| (x.0@, x.1@))
}

/// The edges of a found module, each reported under `specifier`.
pub fn emit(importer: &str, specifier: &str, found: &Found, explicit: bool) -> (r: Vec<(String, Resolution)>)
    ensures
        report_views(r@) == emitted(importer@, specifier@, texts(found.files@), explicit, found.files@.len() as int),
{
    let ghost fs = texts(found.files@);
    let mut r: Vec<(String, Resolution)> = Vec::new();
    let mut i: usize = 0;
    assert(report_views(r@) =~= Seq::<(Seq<char>, ResolutionView)>::empty());
    while i < found.files.len()
        invariant
            i <= found.files.len(),
            fs == texts(found.files@),
            report_views(r@) == emitted(importer@, specifier@, fs, explicit, i as int),
        decreases found.files.len() - i,
    {
        let file = found.files[i].as_str();
        assert(fs[i as int] == file@);
        if !crate::text_util::str_eq(file, importer) || (explicit && i + 1 == found.files.len()) {
            let ghost before = report_views(r@);
            r.push((owned(specifier), Resolution::Internal(owned(file))));
            assert(report_views(r@) =~= before.push((specifier@, ResolutionView::Internal(file@))));
        }
        i += 1;
    }
    r
}

/// What the package initializer binds of a member: the position of its
/// first binding, if any, and whether its exports are computed at run time.
pub struct MemberBinding {
    pub position: Option<usize>,
    pub dynamic: bool,
}

/// `name` as a relative path: dots become slashes.
pub open spec fn slashed_name(name: Seq<char>) -> Seq<char> {
    name.map_values(|c: char| if c == '.' { '/' } else { c })
}

/// The modules that `base.name` may be: the member below the package's base
/// and below each other base of a namespace package, where something lies.
pub open spec fn member_candidates(index: IndexView, bases: Seq<Seq<char>>, name: Seq<char>) -> Seq<FoundView>
    decreases bases.len(),
{
    if bases.len() == 0 {
        Seq::empty()
    } else {
        let rest = member_candidates(index, bases.drop_last(), name);
        let child = nested(bases.last(), slashed_name(name));
        match module_at(index, child) {
            Some((k, file)) => rest.push(
                FoundView {
                    files: match file {
                        Some(f) => seq![f],
                        None => Seq::empty(),
                    },
                    base: child,
                    alternatives: Seq::empty(),
                    kind: k,
                },
            ),
            None => rest,
        }
    }
}

/// The imports that `from specifier import name` adds beyond the module
/// itself: nothing for `*` or an empty name, nor for a name the package
/// initializer binds before the statement (or anywhere, from another file);
/// a dynamic-export warning for a package whose exports are computed; the
/// edges of the one submodule it names; and otherwise the reason it stays
/// unresolved.
pub open spec fn member_imports_of(
    index: IndexView,
    importer: Seq<char>,
    specifier: Seq<char>,
    base: FoundView,
    name: Seq<char>,
    binding: Option<(Option<int>, bool)>,
    statement_start: int,
) -> Seq<(Seq<char>, ResolutionView)> {
    let reported = member_of(specifier, name);
    let candidates = member_candidates(index, seq![base.base] + base.alternatives, name);
    let package = base.kind == ModuleKind::Package && base.files.len() > 0;
    if name.len() == 0 || name == seq!['*'] {
        Seq::empty()
    } else if package && binding is Some && binding.unwrap().0 is Some && (base.files.last() != importer
        || binding.unwrap().0.unwrap() < statement_start) {
        Seq::empty()
    } else if package && binding is Some && binding.unwrap().1 {
        seq![(reported, ResolutionView::Unresolved(dynamic_export()))]
    } else if candidates.len() == 1 {
        emitted(importer, reported, candidates[0].files, true, candidates[0].files.len() as int)
    } else if candidates.len() > 1 {
        seq![(reported, ResolutionView::Unresolved(ambiguous()))]
    } else if base.kind == ModuleKind::Namespace {
        seq![(reported, ResolutionView::Unresolved(missing()))]
    } else {
        seq![(reported, ResolutionView::Unresolved(unknown_member()))]
    }
}

/// The view of an optional member binding.
pub open spec fn binding_view(b: Option<MemberBinding>) -> Option<(Option<int>, bool)> {
    match b {
        Some(m) => Some(
            (
                match m.position {
                    Some(p) => Some(p as int),
                    None => None,
                },
                m.dynamic,
            ),
        ),
        None => None,
    }
}

impl PythonIndex {
    /// The imports that `from specifier import name` adds for one member,
    /// given what the package initializer binds (`binding`).
    pub fn member_imports(
        &self,
        importer: &str,
        specifier: &str,
        base: &Found,
        name: &str,
        binding: Option<MemberBinding>,
        statement_start: usize,
    ) -> (r: Vec<(String, Resolution)>)
        ensures
            report_views(r@) == member_imports_of(
                self@,
                importer@,
                specifier@,
                base@,
                name@,
                binding_view(binding),
                statement_start as int,
            ),
    {
        let empty: Vec<(String, Resolution)> = Vec::new();
        assert(report_views(empty@) =~= Seq::<(Seq<char>, ResolutionView)>::empty());
        let n = chars_of(name);
        if n.len() == 0 || (n.len() == 1 && n[0] == '*') {
            proof {
                if n.len() == 1 {
                    assert(name@ =~= seq!['*']);
                }
            }
            return empty;
        }
        proof {
            if name@ == seq!['*'] {
                assert(n@[0] == '*');
            }
        }
        let reported = member_specifier(specifier, name);
        let package = base.kind == ModuleKind::Package && base.files.len() > 0;
        if package {
            assert(texts(base.files@).last() == base.files@[base.files.len() - 1]@);
            match &binding {
                Some(b) => {
                    match b.position {
                        Some(position) => {
                            if !crate::text_util::str_eq(base.files[base.files.len() - 1].as_str(), importer)
                                || position < statement_start {
                                return empty;
                            }
                        },
                        None => {},
                    }
                    if b.dynamic {
                        let r = vec![(reported, Resolution::Unresolved("Python 包导出可能由 __getattr__ 动态生成；未猜测同名子模块。"))];
                        assert(report_views(r@) =~= seq![(member_of(specifier@, name@), ResolutionView::Unresolved(dynamic_export()))]);
                        return r;
                    }
                },
                None => {},
            }
        }
        let mut path: Vec<char> = Vec::new();
        let mut i: usize = 0;
        while i < n.len()
            invariant
                i <= n.len(),
                path@ == slashed_name(n@).take(i as int),
            decreases n.len() - i,
        {
            path.push(if n[i] == '.' { '/' } else { n[i] });
            i += 1;
            assert(path@ =~= slashed_name(n@).take(i as int));
        }
        assert(slashed_name(n@).take(n.len() as int) =~= slashed_name(n@));
        let relative = string_of(&path);
        let mut bases: Vec<String> = Vec::new();
        bases.push(owned(base.base.as_str()));
        let mut a: usize = 0;
        while a < base.alternatives.len()
            invariant
                a <= base.alternatives.len(),
                texts(bases@) == seq![base.base@] + texts(base.alternatives@).take(a as int),
            decreases base.alternatives.len() - a,
        {
            let ghost before = texts(bases@);
            bases.push(owned(base.alternatives[a].as_str()));
            assert(texts(bases@) =~= before.push(base.alternatives@[a as int]@));
            a += 1;
            assert(texts(base.alternatives@).take(a as int) =~= texts(base.alternatives@).take(a - 1).push(base.alternatives@[a - 1]@));
        }
        assert(texts(base.alternatives@).take(base.alternatives.len() as int) =~= texts(base.alternatives@));
        let ghost bv = texts(bases@);
        let mut candidates: Vec<Found> = Vec::new();
        let mut c: usize = 0;
        assert(bv.take(0) =~= Seq::<Seq<char>>::empty());
        while c < bases.len()
            invariant
                c <= bases.len(),
                bv == texts(bases@),
                relative@ == slashed_name(name@),
                candidates@.map_values(|f: Found| f@) == member_candidates(self@, bv.take(c as int), name@),
            decreases bases.len() - c,
        {
            assert(bv.take(c + 1).drop_last() =~= bv.take(c as int));
            assert(bv.take(c + 1).last() == bases@[c as int]@);
            let child = child_path(bases[c].as_str(), relative.as_str());
            match self.at(child.as_str()) {
                Some((k, file)) => {
                    let files = match file {
                        Some(f) => vec![f],
                        None => Vec::new(),
                    };
                    let found = Found { files, base: child, alternatives: Vec::new(), kind: k };
                    proof {
                        assert(texts(found.alternatives@) =~= Seq::<Seq<char>>::empty());
                        if found.files.len() == 1 {
                            assert(texts(found.files@) =~= seq![found.files@[0]@]);
                        } else {
                            assert(texts(found.files@) =~= Seq::<Seq<char>>::empty());
                        }
                    }
                    let ghost before = candidates@.map_values(|f: Found| f@);
                    candidates.push(found);
                    assert(candidates@.map_values(|f: Found| f@) =~= before.push(candidates@.last()@));
                },
                None => {},
            }
            c += 1;
        }
        assert(bv.take(bases.len() as int) =~= bv);
        if candidates.len() == 1 {
            assert(candidates@.map_values(|f: Found| f@)[0] == candidates@[0]@);
            return emit(importer, reported.as_str(), &candidates[0], true);
        }
        let reason: &'static str = if candidates.len() > 1 {
            "Python 导入在项目根目录与 src 目录中存在多个候选；未猜测 sys.path 顺序。"
        } else if base.kind == ModuleKind::Namespace {
            "Python 项目内模块未找到；目标可能不存在、被忽略或使用自定义导入路径。"
        } else {
            "Python 包成员未在静态导出或已扫描子模块中找到；未猜测文件依赖。"
        };
        let r = vec![(reported, Resolution::Unresolved(reason))];
        assert(report_views(r@) =~= member_imports_of(self@, importer@, specifier@, base@, name@, binding_view(binding), statement_start as int));
        r
    }
}

} // verus!
