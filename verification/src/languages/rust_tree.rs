//! The Rust module tree as the walks build it: which files make up each module
//! of each crate root, the names each module defines, and which (root, module,
//! file) walks were made already.
use vstd::prelude::*;
use crate::languages::rust::RustModule;
use crate::model::FileSet;
use crate::order::texts;
use crate::text_util::{chars_of, push_char, str_eq};

verus! {

/// The modules found so far and the walks made.
pub struct ModuleTree {
    modules: Vec<RustModule>,
    visited: FileSet,
    visits: usize,
}

/// The position of the first module of crate root `root` at module path `scope`, from `k` on.
pub open spec fn module_at(ms: Seq<RustModule>, root: Seq<char>, scope: Seq<Seq<char>>, k: int) -> Option<int>
    decreases ms.len() - k,
{
    if k < 0 || k >= ms.len() {
        None
    } else if ms[k].root@ == root && texts(ms[k].path@) == scope {
        Some(k)
    } else {
        module_at(ms, root, scope, k + 1)
    }
}

/// The text that names a walk: root, module path and file, each followed by a NUL.
pub open spec fn walk_key(root: Seq<char>, scope: Seq<Seq<char>>, file: Seq<char>) -> Seq<char>
    decreases scope.len(),
{
    if scope.len() == 0 {
        root + seq!['\0'] + file + seq!['\0']
    } else {
        walk_key(root, scope.drop_last(), file) + scope.last() + seq!['\0']
    }
}

impl ModuleTree {
    /// The keys of the walks made.
    pub closed spec fn walked(&self) -> Set<Seq<char>> {
        self.visited@
    }

    /// The modules found so far.
    pub closed spec fn tree_modules(&self) -> Seq<RustModule> {
        self.modules@
    }

    /// The modules found so far.
    pub fn modules(&self) -> (r: &Vec<RustModule>)
        ensures
            r@ == self.tree_modules(),
    {
        &self.modules
    }

    /// How many walks were made.
    pub closed spec fn walk_count(&self) -> nat {
        self.visits as nat
    }

    /// No modules and no walks.
    pub fn new() -> (r: Self)
        ensures
            r.tree_modules().len() == 0,
            r.walked() == Set::<Seq<char>>::empty(),
            r.walk_count() == 0,
    {
        ModuleTree { modules: Vec::new(), visited: FileSet::new(), visits: 0 }
    }

    /// How many walks were made.
    pub fn visits(&self) -> (r: usize)
        ensures
            r == self.walk_count(),
    {
        self.visits
    }

    /// The position of the module of `root` at `scope`.
    fn find(&self, root: &str, scope: &Vec<String>) -> (r: Option<usize>)
        ensures
            match r {
                Some(i) => module_at(self.tree_modules(), root@, texts(scope@), 0) == Some(i as int) && i < self.tree_modules().len(),
                None => module_at(self.tree_modules(), root@, texts(scope@), 0) is None,
            },
    {
        let mut k: usize = 0;
        while k < self.modules.len()
            invariant
                k <= self.modules@.len(),
                module_at(self.modules@, root@, texts(scope@), 0) == module_at(self.modules@, root@, texts(scope@), k as int),
            decreases self.modules@.len() - k,
        {
            if str_eq(self.modules[k].root.as_str(), root) && same_texts(&self.modules[k].path, scope) {
                return Some(k);
            }
            k += 1;
        }
        None
    }

    /// Records that `file` belongs to the module of `root` at `scope`: added to
    /// that module's files unless listed, or a new module with that one file.
    pub fn register(&mut self, root: &str, scope: &Vec<String>, file: &str)
        ensures
            final(self).walked() == old(self).walked(),
            final(self).walk_count() == old(self).walk_count(),
            match module_at(old(self).tree_modules(), root@, texts(scope@), 0) {
                Some(i) => final(self).tree_modules().len() == old(self).tree_modules().len()
                    && (forall|j: int| 0 <= j < old(self).tree_modules().len() && j != i ==> #[trigger] final(self).tree_modules()[j] == old(self).tree_modules()[j])
                    && final(self).tree_modules()[i].root == old(self).tree_modules()[i].root
                    && final(self).tree_modules()[i].path == old(self).tree_modules()[i].path
                    && final(self).tree_modules()[i].symbols == old(self).tree_modules()[i].symbols
                    && texts(final(self).tree_modules()[i].files@) == if texts(old(self).tree_modules()[i].files@).contains(file@) {
                        texts(old(self).tree_modules()[i].files@)
                    } else {
                        texts(old(self).tree_modules()[i].files@).push(file@)
                    },
                None => final(self).tree_modules().len() == old(self).tree_modules().len() + 1
                    && (forall|j: int| 0 <= j < old(self).tree_modules().len() ==> #[trigger] final(self).tree_modules()[j] == old(self).tree_modules()[j])
                    && final(self).tree_modules().last().root@ == root@
                    && texts(final(self).tree_modules().last().path@) == texts(scope@)
                    && texts(final(self).tree_modules().last().files@) == seq![file@]
                    && final(self).tree_modules().last().symbols@ == Set::<Seq<char>>::empty(),
            },
    {
        match self.find(root, scope) {
            Some(i) => {
                let mut m = self.modules.remove(i);
                if !holds_text(&m.files, file) {
                    let ghost before = m.files@;
                    m.files.push(crate::text_util::owned(file));
                    assert(texts(m.files@) =~= texts(before).push(file@));
                }
                self.modules.insert(i, m);
            },
            None => {
                let m = RustModule {
                    root: crate::text_util::owned(root),
                    path: crate::simulation::copy_texts(scope),
                    files: vec![crate::text_util::owned(file)],
                    symbols: FileSet::new(),
                };
                assert(texts(m.files@) =~= seq![file@]);
                self.modules.push(m);
            },
        }
    }

    /// Records that the module of `root` at `scope` defines `name`; nothing
    /// when no such module was registered.
    pub fn define(&mut self, root: &str, scope: &Vec<String>, name: &str)
        ensures
            final(self).walked() == old(self).walked(),
            final(self).walk_count() == old(self).walk_count(),
            final(self).tree_modules().len() == old(self).tree_modules().len(),
            match module_at(old(self).tree_modules(), root@, texts(scope@), 0) {
                Some(i) => (forall|j: int| 0 <= j < old(self).tree_modules().len() && j != i ==> #[trigger] final(self).tree_modules()[j] == old(self).tree_modules()[j])
                    && final(self).tree_modules()[i].root == old(self).tree_modules()[i].root
                    && final(self).tree_modules()[i].path == old(self).tree_modules()[i].path
                    && final(self).tree_modules()[i].files == old(self).tree_modules()[i].files
                    && final(self).tree_modules()[i].symbols@ == old(self).tree_modules()[i].symbols@.insert(name@),
                None => final(self).tree_modules() == old(self).tree_modules(),
            },
    {
        match self.find(root, scope) {
            Some(i) => {
                let mut m = self.modules.remove(i);
                m.symbols.insert(name);
                self.modules.insert(i, m);
            },
            None => {},
        }
    }

    /// Records a walk of `file` as module `scope` of `root`, and tells whether
    /// it is the first such walk.
    pub fn visit(&mut self, root: &str, scope: &Vec<String>, file: &str) -> (r: bool)
        requires
            old(self).walk_count() < usize::MAX,
        ensures
            r == !old(self).walked().contains(walk_key(root@, texts(scope@), file@)),
            final(self).walked() == old(self).walked().insert(walk_key(root@, texts(scope@), file@)),
            final(self).walk_count() == old(self).walk_count() + if r { 1nat } else { 0nat },
            final(self).tree_modules() == old(self).tree_modules(),
    {
        let key = key_of(root, scope, file);
        if self.visited.contains(key.as_str()) {
            assert(self.visited@.insert(key@) =~= self.visited@);
            return false;
        }
        self.visited.insert(key.as_str());
        self.visits = self.visits + 1;
        true
    }
}

/// Whether two lists of texts are equal.
fn same_texts(a: &Vec<String>, b: &Vec<String>) -> (r: bool)
    ensures
        r == (texts(a@) == texts(b@)),
{
    if a.len() != b.len() {
        return false;
    }
    let mut i: usize = 0;
    while i < a.len()
        invariant
            i <= a@.len(),
            a@.len() == b@.len(),
            forall|j: int| 0 <= j < i ==> a@[j]@ == b@[j]@,
        decreases a@.len() - i,
    {
        if !str_eq(a[i].as_str(), b[i].as_str()) {
            assert(texts(a@)[i as int] != texts(b@)[i as int]);
            return false;
        }
        i += 1;
    }
    assert(texts(a@) =~= texts(b@));
    true
}

/// Whether a list of texts holds `s`.
fn holds_text(v: &Vec<String>, s: &str) -> (r: bool)
    ensures
        r == texts(v@).contains(s@),
{
    let mut i: usize = 0;
    while i < v.len()
        invariant
            i <= v@.len(),
            forall|j: int| 0 <= j < i ==> v@[j]@ != s@,
        decreases v@.len() - i,
    {
        if str_eq(v[i].as_str(), s) {
            assert(texts(v@)[i as int] == s@);
            return true;
        }
        i += 1;
    }
    assert(!texts(v@).contains(s@));
    false
}

/// Appends the characters of `s`, then a NUL.
fn push_part(out: &mut String, s: &str)
    ensures
        final(out)@ == old(out)@ + s@ + seq!['\0'],
{
    let cs = chars_of(s);
    let mut i: usize = 0;
    while i < cs.len()
        invariant
            i <= cs@.len(),
            cs@ == s@,
            out@ == old(out)@ + s@.take(i as int),
        decreases cs@.len() - i,
    {
        push_char(out, cs[i]);
        i += 1;
        assert(out@ =~= old(out)@ + s@.take(i as int));
    }
    assert(s@.take(s@.len() as int) =~= s@);
    push_char(out, '\0');
}

/// The text that names a walk.
fn key_of(root: &str, scope: &Vec<String>, file: &str) -> (r: String)
    ensures
        r@ == walk_key(root@, texts(scope@), file@),
{
    let mut out = String::new();
    proof {
        reveal_strlit("");
    }
    push_part(&mut out, root);
    push_part(&mut out, file);
    assert(out@ =~= root@ + seq!['\0'] + file@ + seq!['\0']);
    let mut i: usize = 0;
    assert(texts(scope@).subrange(0, 0) =~= Seq::<Seq<char>>::empty());
    while i < scope.len()
        invariant
            i <= scope@.len(),
            out@ == walk_key(root@, texts(scope@).subrange(0, i as int), file@),
        decreases scope@.len() - i,
    {
        push_part(&mut out, scope[i].as_str());
        proof {
            let t = texts(scope@).subrange(0, i + 1);
            assert(t.drop_last() =~= texts(scope@).subrange(0, i as int));
            assert(t.last() == scope@[i as int]@);
        }
        i += 1;
    }
    assert(texts(scope@).subrange(0, scope@.len() as int) =~= texts(scope@));
    out
}

} // verus!
