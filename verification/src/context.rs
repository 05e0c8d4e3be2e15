//! What the language analyzers share: the scanned files, and the bounded,
//! cached reading of configuration files inside the repository.
use vstd::prelude::*;
use vstd::hash_map::StringHashMap;
use crate::analysis::{Extracted, ResolvedImport};
use crate::model::FileSet;
use crate::parser::Parsed;
use crate::resolver::{resolution_of, resolve, Resolution, ResolutionView};
use crate::text_util::{chars_of, owned};

verus! {

/// The most configuration files kept in the cache.
pub const MAX_CONFIG_FILES: usize = 20000;

/// The largest configuration file read, in bytes.
pub const MAX_CONFIG_FILE_BYTES: usize = 1048576;

/// The most configuration bytes read in one analysis.
pub const MAX_CONFIG_BYTES: usize = 16777216;

/// Why an import written as an expression stays unresolved.
pub const DYNAMIC: &'static str = "动态表达式无法静态确定目标；未执行项目代码。";

/// The shared state of one analysis.
pub struct Context {
    root: String,
    known: FileSet,
    config: StringHashMap<Option<String>>,
    config_bytes: usize,
    config_limited: bool,
}

/// What a context holds, as plain values.
pub struct ContextView {
    pub root: Seq<char>,
    pub known: Set<Seq<char>>,
    pub cache: Map<Seq<char>, Option<Seq<char>>>,
    pub bytes: nat,
    pub limited: bool,
}

impl View for Context {
    type V = ContextView;

    closed spec fn view(&self) -> ContextView {
        ContextView {
            root: self.root@,
            known: self.known@,
            cache: self.config@.map_values(|v: Option<String>| match v {
                Some(s) => Some(s@),
                None => None,
            }),
            bytes: self.config_bytes as nat,
            limited: self.config_limited,
        }
    }
}

impl Context {
    /// A context for the repository at `root` with the scanned files `known`;
    /// nothing read yet.
    pub fn new(root: &str, known: FileSet) -> (r: Self)
        ensures
            r@.root == root@,
            r@.known == known@,
            r@.cache == Map::<Seq<char>, Option<Seq<char>>>::empty(),
            r@.bytes == 0,
            !r@.limited,
    {
        let r = Context {
            root: owned(root),
            known,
            config: StringHashMap::new(),
            config_bytes: 0,
            config_limited: false,
        };
        assert(r@.cache =~= Map::<Seq<char>, Option<Seq<char>>>::empty());
        r
    }

    /// The repository root.
    pub fn root(&self) -> (r: &str)
        ensures
            r@ == self@.root,
    {
        self.root.as_str()
    }

    /// The scanned source files.
    pub fn known(&self) -> (r: &FileSet)
        ensures
            r@ == self@.known,
    {
        &self.known
    }

    /// Whether some configuration read was refused by a limit.
    pub fn config_limited(&self) -> (r: bool)
        ensures
            r == self@.limited,
    {
        self.config_limited
    }

    /// The cached outcome of reading `relative`, if it was read before.
    pub fn cached(&self, relative: &str) -> (r: Option<Option<String>>)
        ensures
            match r {
                Some(v) => self@.cache.contains_key(relative@) && self@.cache[relative@] == match v {
                    Some(s) => Some(s@),
                    None => None::<Seq<char>>,
                },
                None => !self@.cache.contains_key(relative@),
            },
    {
        match self.config.get(relative) {
            Some(v) => {
                let copy = match v {
                    Some(s) => Some(owned(s.as_str())),
                    None => None,
                };
                Some(copy)
            },
            None => None,
        }
    }

    /// Whether one more file may be read: refused, and marked limited, once
    /// the cache holds `MAX_CONFIG_FILES` entries.
    pub fn may_read(&mut self) -> (r: bool)
        ensures
            r == (old(self)@.cache.len() < MAX_CONFIG_FILES),
            final(self)@.root == old(self)@.root,
            final(self)@.known == old(self)@.known,
            final(self)@.cache == old(self)@.cache,
            final(self)@.bytes == old(self)@.bytes,
            final(self)@.limited == (old(self)@.limited || !r),
    {
        proof {
            assert(self@.cache.dom() =~= self.config@.dom());
        }
        if self.config.len() >= MAX_CONFIG_FILES {
            self.config_limited = true;
            false
        } else {
            true
        }
    }

    /// Counts `len` more bytes read, unless the file or the total would pass
    /// its limit: then nothing is counted and the context is marked limited.
    pub fn accept(&mut self, len: usize) -> (r: bool)
        ensures
            r == (len <= MAX_CONFIG_FILE_BYTES && old(self)@.bytes + len <= MAX_CONFIG_BYTES),
            final(self)@.root == old(self)@.root,
            final(self)@.known == old(self)@.known,
            final(self)@.cache == old(self)@.cache,
            final(self)@.bytes == if r { old(self)@.bytes + len } else { old(self)@.bytes as int },
            final(self)@.limited == (old(self)@.limited || !r),
    {
        if len > MAX_CONFIG_FILE_BYTES || self.config_bytes > MAX_CONFIG_BYTES - len {
            self.config_limited = true;
            false
        } else {
            self.config_bytes = self.config_bytes + len;
            true
        }
    }

    /// Remembers the outcome of reading `relative`.
    pub fn remember(&mut self, relative: &str, value: Option<String>)
        ensures
            final(self)@.root == old(self)@.root,
            final(self)@.known == old(self)@.known,
            final(self)@.cache == old(self)@.cache.insert(
                relative@,
                match value {
                    Some(s) => Some(s@),
                    None => None::<Seq<char>>,
                },
            ),
            final(self)@.bytes == old(self)@.bytes,
            final(self)@.limited == old(self)@.limited,
    {
        self.config.insert(owned(relative), value);
        assert(self@.cache =~= old(self)@.cache.insert(
            relative@,
            match value {
                Some(s) => Some(s@),
                None => None::<Seq<char>>,
            },
        ));
    }
}

/// A configuration path that stays inside the repository: relative, with no `..` piece.
pub open spec fn config_path_allowed_spec(relative: Seq<char>) -> bool {
    &&& !(relative.len() > 0 && relative[0] == '/')
    &&& !exists|i: int|
        0 <= i && i + 1 < relative.len() && #[trigger] relative[i] == '.' && relative[i + 1] == '.' && (i == 0
            || relative[i - 1] == '/') && (i + 2 == relative.len() || relative[i + 2] == '/')
}

/// Whether a configuration path may be read: relative and without `..`.
pub fn config_path_allowed(relative: &str) -> (r: bool)
    ensures
        r == config_path_allowed_spec(relative@),
{
    let cs = chars_of(relative);
    let n = cs.len();
    if n > 0 && cs[0] == '/' {
        return false;
    }
    let mut i: usize = 0;
    while i < n
        invariant
            i <= n,
            n == cs.len(),
            cs@ == relative@,
            forall|j: int|
                0 <= j < i ==> !(#[trigger] cs@[j] == '.' && j + 1 < n && cs@[j + 1] == '.' && (j == 0
                    || cs@[j - 1] == '/') && (j + 2 == n || cs@[j + 2] == '/')),
        decreases n - i,
    {
        if cs[i] == '.' && i + 1 < n && cs[i + 1] == '.' && (i == 0 || cs[i - 1] == '/') && (i + 2 == n
            || cs[i + 2] == '/') {
            assert(relative@[i as int] == '.');
            return false;
        }
        i += 1;
    }
    true
}

/// What a JavaScript or TypeScript import of module `id` resolves to: the
/// resolution of a decoded literal, or unresolved for an expression.
pub open spec fn js_resolution(id: Seq<char>, specifier: Seq<char>, literal: bool, known: Set<Seq<char>>) -> ResolutionView {
    if literal {
        resolution_of(id, specifier, known)
    } else {
        ResolutionView::Unresolved(DYNAMIC@)
    }
}

/// Resolves the imports parsed from the JavaScript or TypeScript module `id`.
pub fn resolve_js(id: &str, parsed: Parsed, known: &FileSet) -> (r: Extracted)
    ensures
        r.has_errors == parsed.has_errors,
        r.imports.len() == parsed.imports.len(),
        forall|k: int| 0 <= k < r.imports.len() ==> {
            &&& (#[trigger] r.imports@[k]).specifier@ == parsed.imports@[k].specifier@
            &&& r.imports@[k].kind == parsed.imports@[k].kind
            &&& r.imports@[k].resolution@ == js_resolution(id@, parsed.imports@[k].specifier@, parsed.imports@[k].literal, known@)
        },
{
    let mut imports: Vec<ResolvedImport> = Vec::new();
    let mut k: usize = 0;
    while k < parsed.imports.len()
        invariant
            k <= parsed.imports.len(),
            imports.len() == k,
            forall|a: int| 0 <= a < k ==> {
                &&& (#[trigger] imports@[a]).specifier@ == parsed.imports@[a].specifier@
                &&& imports@[a].kind == parsed.imports@[a].kind
                &&& imports@[a].resolution@ == js_resolution(id@, parsed.imports@[a].specifier@, parsed.imports@[a].literal, known@)
            },
        decreases parsed.imports.len() - k,
    {
        let import = &parsed.imports[k];
        let resolution = if import.literal {
            resolve(id, import.specifier.as_str(), known)
        } else {
            Resolution::Unresolved(DYNAMIC)
        };
        imports.push(ResolvedImport { specifier: owned(import.specifier.as_str()), kind: import.kind, resolution });
        k += 1;
    }
    Extracted { imports, has_errors: parsed.has_errors }
}

} // verus!
