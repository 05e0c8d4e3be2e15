//! Rust helpers: where a `#[path]` module may point, which files are crate
//! roots, the crate name a manifest declares and the value of a `path`
//! attribute.
use vstd::prelude::*;
use crate::json::{json_string, json_string_value};
use crate::model::FileSet;
use crate::order::texts;
use crate::paths::{child_path, nested};
use crate::resolver::{Resolution, ResolutionView};
use crate::paths::{normalize as walk_path, normalized};
use crate::text_util::{
    after_last, before_last, chars_of, first_index, has_prefix, has_suffix, last_index, owned, lemma_first_index,
    lemma_last_index, split_on, string_of, trimmed, vec_after_last, vec_before_last,
    vec_first_index, vec_has_suffix, vec_last_index, vec_same, vec_slice, vec_split, vec_trim,
    views,
};

verus! {

/// A module path relative to `directory`, refused when it is absolute, names a
/// drive or holds a backslash or NUL.
pub open spec fn attribute_target(directory: Seq<char>, relative: Seq<char>) -> Option<Seq<char>> {
    if has_prefix(relative, seq!['/']) || has_prefix(relative, seq!['\\']) || relative.contains(
        ':',
    ) || relative.contains('\0') || relative.contains('\\') {
        None
    } else {
        normalized(directory, relative)
    }
}

fn holds(v: &Vec<char>, c: char) -> (r: bool)
    ensures
        r == v@.contains(c),
{
    let mut i: usize = 0;
    while i < v.len()
        invariant
            i <= v.len(),
            forall|k: int| 0 <= k < i ==> v@[k] != c,
        decreases v.len() - i,
    {
        if v[i] == c {
            assert(v@[i as int] == c);
            return true;
        }
        i += 1;
    }
    false
}

/// Resolves the file that a `#[path]` attribute names, relative to the
/// directory of the declaring file.
pub fn normalize(directory: &str, relative: &str) -> (r: Option<String>)
    ensures
        match r {
            Some(s) => attribute_target(directory@, relative@) == Some(s@),
            None => attribute_target(directory@, relative@) is None,
        },
{
    let v = chars_of(relative);
    proof {
        crate::text_util::lemma_short_prefix(v@, '/', '/');
        crate::text_util::lemma_short_prefix(v@, '\\', '\\');
    }
    if (v.len() > 0 && (v[0] == '/' || v[0] == '\\')) || holds(&v, ':') || holds(&v, '\0')
        || holds(&v, '\\') {
        return None;
    }
    walk_path(directory, relative)
}

/// Whether a word equals the given literal characters.
fn is_word(v: &Vec<char>, word: &Vec<char>) -> (r: bool)
    ensures
        r == (v@ == word@),
{
    vec_same(v, word)
}

/// A crate root: `lib.rs`, `main.rs`, or any file directly inside a `bin`,
/// `tests` or `examples` directory.
pub open spec fn crate_root(id: Seq<char>) -> bool {
    let name = after_last(id, '/');
    let directory = after_last(before_last(id, '/'), '/');
    ||| name == seq!['l', 'i', 'b', '.', 'r', 's']
    ||| name == seq!['m', 'a', 'i', 'n', '.', 'r', 's']
    ||| directory == seq!['b', 'i', 'n']
    ||| directory == seq!['t', 'e', 's', 't', 's']
    ||| directory == seq!['e', 'x', 'a', 'm', 'p', 'l', 'e', 's']
}

/// Whether the file is the root of a crate target.
pub fn is_crate_root(id: &str) -> (r: bool)
    ensures
        r == crate_root(id@),
{
    let cs = chars_of(id);
    let name = vec_after_last(&cs, '/');
    let lib = vec!['l', 'i', 'b', '.', 'r', 's'];
    let main = vec!['m', 'a', 'i', 'n', '.', 'r', 's'];
    let bin = vec!['b', 'i', 'n'];
    let tests = vec!['t', 'e', 's', 't', 's'];
    let examples = vec!['e', 'x', 'a', 'm', 'p', 'l', 'e', 's'];
    assert(lib@ =~= seq!['l', 'i', 'b', '.', 'r', 's']);
    assert(main@ =~= seq!['m', 'a', 'i', 'n', '.', 'r', 's']);
    assert(bin@ =~= seq!['b', 'i', 'n']);
    assert(tests@ =~= seq!['t', 'e', 's', 't', 's']);
    assert(examples@ =~= seq!['e', 'x', 'a', 'm', 'p', 'l', 'e', 's']);
    if is_word(&name, &lib) || is_word(&name, &main) {
        return true;
    }
    let directory = vec_after_last(&vec_before_last(&cs, '/'), '/');
    is_word(&directory, &bin) || is_word(&directory, &tests) || is_word(&directory, &examples)
}

/// Everything before the first `c`, or all of `s`.
pub open spec fn before_first(s: Seq<char>, c: char) -> Seq<char> {
    match first_index(s, c) {
        Some(i) => s.subrange(0, i),
        None => s,
    }
}

fn vec_before_first(v: &Vec<char>, c: char) -> (r: Vec<char>)
    ensures
        r@ == before_first(v@, c),
{
    proof {
        lemma_first_index(v@, c);
    }
    match vec_first_index(v, c) {
        Some(i) => vec_slice(v, 0, i),
        None => {
            assert(v@.subrange(0, v@.len() as int) =~= v@);
            vec_slice(v, 0, v.len())
        },
    }
}

/// The quoted name at the start of a manifest value: what follows an opening
/// `"` or `'` up to the same quote (or to the end).
pub open spec fn quoted_name(value: Seq<char>) -> Option<Seq<char>> {
    if has_prefix(value, seq!['"']) {
        Some(before_first(value.subrange(1, value.len() as int), '"'))
    } else if has_prefix(value, seq!['\'']) {
        Some(before_first(value.subrange(1, value.len() as int), '\''))
    } else {
        None
    }
}

/// What a manifest says after the given lines: the section header in force,
/// and the `name` of `[package]` and of `[lib]` as last set there.
pub open spec fn manifest_state(lines: Seq<Seq<char>>) -> (Seq<char>, Option<Seq<char>>, Option<
    Seq<char>,
>)
    decreases lines.len(),
{
    if lines.len() == 0 {
        (Seq::empty(), None, None)
    } else {
        let (section, package, library) = manifest_state(lines.drop_last());
        let line = trimmed(lines.last());
        if has_prefix(line, seq!['[']) {
            (line, package, library)
        } else {
            match first_index(line, '=') {
                None => (section, package, library),
                Some(e) => {
                    if trimmed(line.subrange(0, e)) != seq!['n', 'a', 'm', 'e'] {
                        (section, package, library)
                    } else {
                        let name = quoted_name(trimmed(line.subrange(e + 1, line.len() as int)));
                        if section == seq!['[', 'p', 'a', 'c', 'k', 'a', 'g', 'e', ']'] {
                            (section, name, library)
                        } else if section == seq!['[', 'l', 'i', 'b', ']'] {
                            (section, package, name)
                        } else {
                            (section, package, library)
                        }
                    }
                },
            }
        }
    }
}

/// `s` with every `-` written as `_`.
pub open spec fn underscored(s: Seq<char>) -> Seq<char> {
    s.map_values(|c: char| if c == '-' { '_' } else { c })
}

/// The crate name a `Cargo.toml` declares: the library name, else the package
/// name, with dashes turned into underscores.
pub open spec fn manifest_crate_name(config: Seq<char>) -> Option<Seq<char>> {
    let (_, package, library) = manifest_state(split_on(config, '\n'));
    let name = if library is Some {
        library
    } else {
        package
    };
    match name {
        Some(n) => Some(underscored(n)),
        None => None,
    }
}

fn quoted(value: &Vec<char>) -> (r: Option<Vec<char>>)
    ensures
        match r {
            Some(v) => quoted_name(value@) == Some(v@),
            None => quoted_name(value@) is None,
        },
{
    proof {
        crate::text_util::lemma_short_prefix(value@, '"', '"');
        crate::text_util::lemma_short_prefix(value@, '\'', '\'');
    }
    if value.len() > 0 && (value[0] == '"' || value[0] == '\'') {
        let rest = vec_slice(value, 1, value.len());
        Some(vec_before_first(&rest, value[0]))
    } else {
        None
    }
}

/// The crate name declared by a `Cargo.toml` text.
pub fn crate_name(config: &str) -> (r: Option<String>)
    ensures
        match r {
            Some(s) => manifest_crate_name(config@) == Some(s@),
            None => manifest_crate_name(config@) is None,
        },
{
    let lines = vec_split(&chars_of(config), '\n');
    let mut section: Vec<char> = Vec::new();
    let mut package: Option<Vec<char>> = None;
    let mut library: Option<Vec<char>> = None;
    let name_word = vec!['n', 'a', 'm', 'e'];
    let package_word = vec!['[', 'p', 'a', 'c', 'k', 'a', 'g', 'e', ']'];
    let lib_word = vec!['[', 'l', 'i', 'b', ']'];
    assert(name_word@ =~= seq!['n', 'a', 'm', 'e']);
    assert(package_word@ =~= seq!['[', 'p', 'a', 'c', 'k', 'a', 'g', 'e', ']']);
    assert(lib_word@ =~= seq!['[', 'l', 'i', 'b', ']']);
    let mut k: usize = 0;
    proof {
        assert(views(lines@).take(0) =~= Seq::<Seq<char>>::empty());
        assert(section@ =~= Seq::<char>::empty());
    }
    while k < lines.len()
        invariant
            k <= lines.len(),
            views(lines@) == split_on(config@, '\n'),
            name_word@ == seq!['n', 'a', 'm', 'e'],
            package_word@ == seq!['[', 'p', 'a', 'c', 'k', 'a', 'g', 'e', ']'],
            lib_word@ == seq!['[', 'l', 'i', 'b', ']'],
            manifest_state(views(lines@).take(k as int)) == (
                section@,
                match package {
                    Some(p) => Some(p@),
                    None => None::<Seq<char>>,
                },
                match library {
                    Some(l) => Some(l@),
                    None => None::<Seq<char>>,
                },
            ),
        decreases lines.len() - k,
    {
        proof {
            assert(views(lines@).take(k + 1).drop_last() =~= views(lines@).take(k as int));
            assert(views(lines@).take(k + 1).last() == lines@[k as int]@);
        }
        let line = vec_trim(&lines[k]);
        proof {
            crate::text_util::lemma_short_prefix(line@, '[', '[');
        }
        if line.len() > 0 && line[0] == '[' {
            section = line;
        } else {
            match vec_first_index(&line, '=') {
                None => {},
                Some(e) => {
                    proof {
                        lemma_first_index(line@, '=');
                    }
                    let key = vec_trim(&vec_slice(&line, 0, e));
                    if is_word(&key, &name_word) {
                        let value = vec_trim(&vec_slice(&line, e + 1, line.len()));
                        let name = quoted(&value);
                        if is_word(&section, &package_word) {
                            package = name;
                        } else if is_word(&section, &lib_word) {
                            library = name;
                        }
                    }
                },
            }
        }
        k += 1;
    }
    assert(views(lines@).take(lines.len() as int) =~= views(lines@));
    let chosen = match library {
        Some(l) => Some(l),
        None => package,
    };
    match chosen {
        None => None,
        Some(n) => {
            let mut out: Vec<char> = Vec::new();
            let mut i: usize = 0;
            while i < n.len()
                invariant
                    i <= n.len(),
                    out@ == underscored(n@).take(i as int),
                decreases n.len() - i,
            {
                out.push(if n[i] == '-' { '_' } else { n[i] });
                i += 1;
                assert(out@ =~= underscored(n@).take(i as int));
            }
            assert(underscored(n@).take(n.len() as int) =~= underscored(n@));
            Some(string_of(&out))
        },
    }
}

/// The reason given when a `path` attribute cannot be used.
pub open spec fn path_refusal() -> Seq<char> {
    "Rust module path is outside the selected project or is not a literal."@
}

/// What the text of an attribute says of a module path: `None` when it is no
/// `#[path = ...]` attribute, `Some(Ok(path))` for a plain or raw string
/// literal, and `Some(Err(reason))` for any other value.
pub open spec fn path_attribute_of(text: Seq<char>) -> Option<Result<Seq<char>, Seq<char>>> {
    let raw = trimmed(text);
    if !(raw.len() >= 3 && has_prefix(raw, seq!['#', '[']) && raw.last() == ']') {
        None
    } else {
        let inner = trimmed(raw.subrange(2, raw.len() - 1));
        match first_index(inner, '=') {
            None => None,
            Some(e) => if trimmed(inner.subrange(0, e)) != seq!['p', 'a', 't', 'h'] {
                None
            } else {
                let value = trimmed(inner.subrange(e + 1, inner.len() as int));
                let parsed = if has_prefix(value, seq!['r']) {
                    match (first_index(value, '"'), last_index(value, '"')) {
                        (Some(f), Some(l)) => if f < l {
                            Some(value.subrange(f + 1, l))
                        } else {
                            None
                        },
                        _ => None,
                    }
                } else {
                    json_string_value(value)
                };
                match parsed {
                    Some(p) => Some(Ok(p)),
                    None => Some(Err(path_refusal())),
                }
            },
        }
    }
}

/// Reads a `#[path = "..."]` attribute from its source text.
pub fn read_path_attribute(text: &str) -> (r: Option<Result<String, &'static str>>)
    ensures
        match r {
            None => path_attribute_of(text@) is None,
            Some(Ok(p)) => path_attribute_of(text@) == Some(Ok::<Seq<char>, Seq<char>>(p@)),
            Some(Err(e)) => path_attribute_of(text@) == Some(Err::<Seq<char>, Seq<char>>(e@)),
        },
{
    let raw = vec_trim(&chars_of(text));
    proof {
        crate::text_util::lemma_short_prefix(raw@, '#', '[');
    }
    if !(raw.len() >= 3 && raw[0] == '#' && raw[1] == '[' && raw[raw.len() - 1] == ']') {
        return None;
    }
    let inner = vec_trim(&vec_slice(&raw, 2, raw.len() - 1));
    let e = match vec_first_index(&inner, '=') {
        None => {
            return None;
        },
        Some(e) => e,
    };
    proof {
        lemma_first_index(inner@, '=');
    }
    let name = vec_trim(&vec_slice(&inner, 0, e));
    let path_word = vec!['p', 'a', 't', 'h'];
    assert(path_word@ =~= seq!['p', 'a', 't', 'h']);
    if !is_word(&name, &path_word) {
        return None;
    }
    let value = vec_trim(&vec_slice(&inner, e + 1, inner.len()));
    proof {
        crate::text_util::lemma_short_prefix(value@, 'r', 'r');
        lemma_first_index(value@, '"');
        lemma_last_index(value@, '"');
    }
    let parsed = if value.len() > 0 && value[0] == 'r' {
        match (vec_first_index(&value, '"'), vec_last_index(&value, '"')) {
            (Some(f), Some(l)) => if f < l {
                Some(string_of(&vec_slice(&value, f + 1, l)))
            } else {
                None
            },
            _ => None,
        }
    } else {
        json_string(string_of(&value).as_str())
    };
    match parsed {
        Some(p) => Some(Ok(p)),
        None => {
            let reason: &'static str = "Rust module path is outside the selected project or is not a literal.";
            Some(Err(reason))
        },
    }
}

/// No scanned source is the module file.
pub open spec fn module_not_found() -> Seq<char> {
    "Rust module file was not found among scanned sources."@
}

/// Both candidate module files exist.
pub open spec fn module_twice() -> Seq<char> {
    "Rust module has both name.rs and name/mod.rs candidates."@
}

/// The view of a `path` attribute's reading.
pub open spec fn attribute_view(a: Option<Result<String, &'static str>>) -> Option<Result<Seq<char>, Seq<char>>> {
    match a {
        None => None,
        Some(Ok(p)) => Some(Ok(p@)),
        Some(Err(e)) => Some(Err(e@)),
    }
}

/// The file of an out-of-line `mod name;`: the one its `path` attribute names
/// (relative to `attribute_dir`), else `name.rs` or `name/mod.rs` in
/// `children_dir`, which must be a scanned Rust source; otherwise the reason.
pub open spec fn module_file_of(
    attribute: Option<Result<Seq<char>, Seq<char>>>,
    attribute_dir: Seq<char>,
    children_dir: Seq<char>,
    name: Seq<char>,
    sources: Set<Seq<char>>,
) -> Result<Seq<char>, Seq<char>> {
    match attribute {
        Some(Ok(path)) => match attribute_target(attribute_dir, path) {
            Some(candidate) => if sources.contains(candidate) {
                Ok(candidate)
            } else {
                Err(module_not_found())
            },
            None => Err(path_refusal()),
        },
        Some(Err(reason)) => Err(reason),
        None => {
            let base = nested(children_dir, name);
            let flat = base + seq!['.', 'r', 's'];
            let folder = base + seq!['/', 'm', 'o', 'd', '.', 'r', 's'];
            if sources.contains(flat) && sources.contains(folder) {
                Err(module_twice())
            } else if sources.contains(flat) {
                Ok(flat)
            } else if sources.contains(folder) {
                Ok(folder)
            } else {
                Err(module_not_found())
            }
        },
    }
}

/// Finds the file of an out-of-line module declaration among the scanned
/// Rust sources.
pub fn module_file(
    attribute: &Option<Result<String, &'static str>>,
    attribute_dir: &str,
    children_dir: &str,
    name: &str,
    sources: &FileSet,
) -> (r: Result<String, &'static str>)
    ensures
        match r {
            Ok(f) => module_file_of(attribute_view(*attribute), attribute_dir@, children_dir@, name@, sources@) == Ok::<Seq<char>, Seq<char>>(f@),
            Err(e) => module_file_of(attribute_view(*attribute), attribute_dir@, children_dir@, name@, sources@) == Err::<Seq<char>, Seq<char>>(e@),
        },
{
    match attribute {
        Some(Ok(path)) => match normalize(attribute_dir, path.as_str()) {
            Some(candidate) => {
                if sources.contains(candidate.as_str()) {
                    Ok(candidate)
                } else {
                    Err("Rust module file was not found among scanned sources.")
                }
            },
            None => Err("Rust module path is outside the selected project or is not a literal."),
        },
        Some(Err(reason)) => Err(*reason),
        None => {
            let base = child_path(children_dir, name);
            let mut flat = chars_of(base.as_str());
            let mut folder = chars_of(base.as_str());
            flat.push('.');
            flat.push('r');
            flat.push('s');
            folder.push('/');
            folder.push('m');
            folder.push('o');
            folder.push('d');
            folder.push('.');
            folder.push('r');
            folder.push('s');
            assert(flat@ =~= base@ + seq!['.', 'r', 's']);
            assert(folder@ =~= base@ + seq!['/', 'm', 'o', 'd', '.', 'r', 's']);
            let flat = string_of(&flat);
            let folder = string_of(&folder);
            let has_flat = sources.contains(flat.as_str());
            let has_folder = sources.contains(folder.as_str());
            if has_flat && has_folder {
                Err("Rust module has both name.rs and name/mod.rs candidates.")
            } else if has_flat {
                Ok(flat)
            } else if has_folder {
                Ok(folder)
            } else {
                Err("Rust module file was not found among scanned sources.")
            }
        },
    }
}

/// The directory of an inline `mod name { .. }`: the one its `path` attribute
/// names, none for an unusable attribute, else `name` in `children_dir`.
pub open spec fn inline_directory_of(
    attribute: Option<Result<Seq<char>, Seq<char>>>,
    attribute_dir: Seq<char>,
    children_dir: Seq<char>,
    name: Seq<char>,
) -> Option<Seq<char>> {
    match attribute {
        Some(Ok(path)) => attribute_target(attribute_dir, path),
        Some(Err(_)) => None,
        None => Some(nested(children_dir, name)),
    }
}

/// Where the children of an inline module are looked for.
pub fn inline_directory(
    attribute: &Option<Result<String, &'static str>>,
    attribute_dir: &str,
    children_dir: &str,
    name: &str,
) -> (r: Option<String>)
    ensures
        match r {
            Some(d) => inline_directory_of(attribute_view(*attribute), attribute_dir@, children_dir@, name@) == Some(d@),
            None => inline_directory_of(attribute_view(*attribute), attribute_dir@, children_dir@, name@) is None,
        },
{
    match attribute {
        Some(Ok(path)) => normalize(attribute_dir, path.as_str()),
        Some(Err(_)) => None,
        None => Some(child_path(children_dir, name)),
    }
}

/// The directory that holds the submodules of a module file: the file's own
/// directory for `mod.rs`, else the file's path without `.rs`.
pub open spec fn children_dir_of(file: Seq<char>) -> Seq<char> {
    if has_suffix(file, seq!['/', 'm', 'o', 'd', '.', 'r', 's']) || file == seq!['m', 'o', 'd', '.', 'r', 's'] {
        before_last(file, '/')
    } else if has_suffix(file, seq!['.', 'r', 's']) {
        file.subrange(0, file.len() - 3)
    } else {
        file
    }
}

/// Where the submodules of a module file live.
pub fn children_directory(file: &str) -> (r: String)
    ensures
        r@ == children_dir_of(file@),
{
    let cs = chars_of(file);
    let mod_file = vec!['/', 'm', 'o', 'd', '.', 'r', 's'];
    let bare = vec!['m', 'o', 'd', '.', 'r', 's'];
    let rs = vec!['.', 'r', 's'];
    assert(mod_file@ =~= seq!['/', 'm', 'o', 'd', '.', 'r', 's']);
    assert(bare@ =~= seq!['m', 'o', 'd', '.', 'r', 's']);
    assert(rs@ =~= seq!['.', 'r', 's']);
    if vec_has_suffix(&cs, &mod_file) || vec_same(&cs, &bare) {
        string_of(&vec_before_last(&cs, '/'))
    } else if vec_has_suffix(&cs, &rs) {
        string_of(&vec_slice(&cs, 0, cs.len() - 3))
    } else {
        owned(file)
    }
}

/// A module of the declared module tree: the crate root file it belongs to,
/// its path of module names below the root, the files that declare it, and
/// the names it defines or re-exports.
pub struct RustModule {
    pub root: String,
    pub path: Vec<String>,
    pub files: Vec<String>,
    pub symbols: FileSet,
}

/// A library crate of the project: its crate name, its root file and the
/// directory of the manifest that holds the root.
pub struct RustLibrary {
    pub name: String,
    pub root: String,
    pub manifest: String,
}

/// A `use` path met in `file` (whose manifest directory is `manifest`) inside
/// the module `scope` of the crate rooted at `root`.
pub struct UsePath {
    pub file: String,
    pub manifest: String,
    pub root: String,
    pub scope: Vec<String>,
    pub path: Vec<String>,
}

/// The position of the first module with the given root and path.
pub open spec fn module_index(modules: Seq<RustModule>, root: Seq<char>, path: Seq<Seq<char>>) -> int
    decreases modules.len(),
{
    if modules.len() == 0 {
        -1
    } else {
        let before = module_index(modules.drop_last(), root, path);
        if before >= 0 {
            before
        } else if modules.last().root@ == root && texts(modules.last().path@) == path {
            modules.len() - 1
        } else {
            -1
        }
    }
}

/// Several files could be the module.
pub open spec fn several_files() -> Seq<char> {
    "Rust module path has multiple possible source files."@
}

/// The longest prefix of `path` (of at most `length` names) that is a module
/// of the crate rooted at `root` gives the file; the crate root itself counts
/// only for a name it defines.
pub open spec fn longest_module(modules: Seq<RustModule>, root: Seq<char>, path: Seq<Seq<char>>, length: int) -> Option<
    ResolutionView,
>
    decreases length + 1,
{
    if length < 0 {
        None
    } else {
        let i = module_index(modules, root, path.take(length));
        if i < 0 || (length == 0 && path.len() > 0 && !modules[i].symbols@.contains(path[0])) {
            longest_module(modules, root, path, length - 1)
        } else if modules[i].files@.len() != 1 {
            Some(ResolutionView::Unresolved(several_files()))
        } else {
            Some(ResolutionView::Internal(modules[i].files@[0]@))
        }
    }
}

/// The file a module path leads to, or, when no prefix of it is a module,
/// missing for paths anchored at `crate`, `self` or `super` and external for
/// the others.
pub open spec fn tree_lookup(modules: Seq<RustModule>, root: Seq<char>, path: Seq<Seq<char>>, anchored: bool) -> ResolutionView {
    match longest_module(modules, root, path, path.len() as int) {
        Some(r) => r,
        None => if anchored {
            ResolutionView::Unresolved("Rust use path was not found in the declared local module tree."@)
        } else {
            ResolutionView::External
        },
    }
}

/// How many of the first names are `super`.
pub open spec fn supers(path: Seq<Seq<char>>) -> nat
    decreases path.len(),
{
    if path.len() > 0 && path[0] == seq!['s', 'u', 'p', 'e', 'r'] {
        1 + supers(path.drop_first())
    } else {
        0
    }
}

/// The libraries named `name`.
pub open spec fn named(libraries: Seq<RustLibrary>, name: Seq<char>) -> Seq<RustLibrary>
    decreases libraries.len(),
{
    if libraries.len() == 0 {
        Seq::empty()
    } else if libraries.last().name@ == name {
        named(libraries.drop_last(), name).push(libraries.last())
    } else {
        named(libraries.drop_last(), name)
    }
}

/// The libraries whose manifest is `manifest`.
pub open spec fn in_manifest(libraries: Seq<RustLibrary>, manifest: Seq<char>) -> Seq<RustLibrary>
    decreases libraries.len(),
{
    if libraries.len() == 0 {
        Seq::empty()
    } else if libraries.last().manifest@ == manifest {
        in_manifest(libraries.drop_last(), manifest).push(libraries.last())
    } else {
        in_manifest(libraries.drop_last(), manifest)
    }
}

/// The libraries a crate name may mean: those of the file's own manifest when
/// there are any, else all libraries with that name.
pub open spec fn library_choices(libraries: Seq<RustLibrary>, name: Seq<char>, manifest: Seq<char>) -> Seq<RustLibrary> {
    let all = named(libraries, name);
    let local = in_manifest(all, manifest);
    if local.len() == 0 {
        all
    } else {
        local
    }
}

/// Where a `use` path leads in the declared module tree. A trailing `*`, and
/// a trailing `self` after other names, are dropped. `crate`, `self` and
/// `super` anchor the path at the crate root or the current module; a first
/// name that is a child module of the current module stays relative to it; a
/// first name that names a library crate of the project moves to that crate
/// (preferring the one of the same manifest); anything else is looked up from
/// the crate root.
pub open spec fn use_target(modules: Seq<RustModule>, libraries: Seq<RustLibrary>, file_manifest: Seq<char>, root: Seq<char>, scope: Seq<Seq<char>>, path: Seq<Seq<char>>) -> ResolutionView {
    let p1 = if path.len() > 0 && path.last() == seq!['*'] {
        path.drop_last()
    } else {
        path
    };
    let p = if p1.len() > 1 && p1.last() == seq!['s', 'e', 'l', 'f'] {
        p1.drop_last()
    } else {
        p1
    };
    if p.len() == 0 {
        ResolutionView::Unresolved("Rust use path could not be resolved."@)
    } else if p[0] == seq!['c', 'r', 'a', 't', 'e'] {
        tree_lookup(modules, root, p.drop_first(), true)
    } else if p[0] == seq!['s', 'e', 'l', 'f'] {
        tree_lookup(modules, root, scope + p.drop_first(), true)
    } else if p[0] == seq!['s', 'u', 'p', 'e', 'r'] {
        if supers(p) > scope.len() {
            ResolutionView::Unresolved("Rust super path escapes the crate root."@)
        } else {
            tree_lookup(modules, root, scope.take(scope.len() - supers(p)) + p.skip(supers(p) as int), true)
        }
    } else if module_index(modules, root, scope.push(p[0])) >= 0 {
        tree_lookup(modules, root, scope + p, false)
    } else if named(libraries, p[0]).len() > 0 {
        let choices = library_choices(libraries, p[0], file_manifest);
        if choices.len() != 1 {
            ResolutionView::Unresolved("Rust crate name matches multiple local libraries."@)
        } else {
            tree_lookup(modules, choices[0].root@, p.drop_first(), false)
        }
    } else {
        tree_lookup(modules, root, p, false)
    }
}

fn same_texts(a: &Vec<String>, b: &Vec<String>) -> (r: bool)
    ensures
        r == (texts(a@) == texts(b@)),
{
    if a.len() != b.len() {
        return false;
    }
    let mut i: usize = 0;
    while i < a.len()
        invariant
            i <= a.len(),
            a.len() == b.len(),
            forall|k: int| 0 <= k < i ==> texts(a@)[k] == texts(b@)[k],
        decreases a.len() - i,
    {
        if !vec_same(&chars_of(a[i].as_str()), &chars_of(b[i].as_str())) {
            assert(texts(a@)[i as int] != texts(b@)[i as int]);
            return false;
        }
        i += 1;
    }
    assert(texts(a@) =~= texts(b@));
    true
}

fn find_module(modules: &Vec<RustModule>, root: &str, path: &Vec<String>) -> (r: Option<usize>)
    ensures
        match r {
            Some(i) => module_index(modules@, root@, texts(path@)) == i && i < modules.len(),
            None => module_index(modules@, root@, texts(path@)) == -1,
        },
{
    let mut i: usize = 0;
    while i < modules.len()
        invariant
            i <= modules.len(),
            module_index(modules@.take(i as int), root@, texts(path@)) == -1,
        decreases modules.len() - i,
    {
        assert(modules@.take(i + 1).drop_last() =~= modules@.take(i as int));
        if vec_same(&chars_of(modules[i].root.as_str()), &chars_of(root)) && same_texts(&modules[i].path, path) {
            proof {
                lemma_module_index_prefix(modules@, root@, texts(path@), i as int);
            }
            return Some(i);
        }
        i += 1;
    }
    assert(modules@.take(modules.len() as int) =~= modules@);
    None
}

proof fn lemma_module_index_prefix(modules: Seq<RustModule>, root: Seq<char>, path: Seq<Seq<char>>, i: int)
    requires
        0 <= i < modules.len(),
        module_index(modules.take(i), root, path) == -1,
        modules[i].root@ == root && texts(modules[i].path@) == path,
    ensures
        module_index(modules, root, path) == i,
    decreases modules.len() - i,
{
    assert(modules.take(i + 1).drop_last() =~= modules.take(i));
    lemma_module_index_grows(modules, root, path, i + 1);
}

proof fn lemma_module_index_grows(modules: Seq<RustModule>, root: Seq<char>, path: Seq<Seq<char>>, j: int)
    requires
        1 <= j <= modules.len(),
        module_index(modules.take(j), root, path) >= 0,
    ensures
        module_index(modules, root, path) == module_index(modules.take(j), root, path),
    decreases modules.len() - j,
{
    if j < modules.len() {
        assert(modules.take(j + 1).drop_last() =~= modules.take(j));
        lemma_module_index_grows(modules, root, path, j + 1);
    } else {
        assert(modules.take(j) =~= modules);
    }
}

fn word(v: &Vec<char>) -> (r: String)
    ensures
        r@ == v@,
{
    string_of(v)
}

fn is_text(s: &String, w: &Vec<char>) -> (r: bool)
    ensures
        r == (s@ == w@),
{
    vec_same(&chars_of(s.as_str()), w)
}

fn lookup_tree(modules: &Vec<RustModule>, root: &str, path: &Vec<String>, anchored: bool) -> (r: Resolution)
    ensures
        r@ == tree_lookup(modules@, root@, texts(path@), anchored),
{
    let ghost full = texts(path@);
    let mut length = path.len();
    loop
        invariant_except_break
            length <= path.len(),
            full == texts(path@),
            longest_module(modules@, root@, full, full.len() as int) == longest_module(modules@, root@, full, length as int),
        ensures
            longest_module(modules@, root@, full, full.len() as int) is None,
        decreases length,
    {
        let mut prefix: Vec<String> = Vec::new();
        let mut k: usize = 0;
        while k < length
            invariant
                k <= length <= path.len(),
                full == texts(path@),
                texts(prefix@) == full.take(k as int),
            decreases length - k,
        {
            let ghost before = texts(prefix@);
            prefix.push(owned(path[k].as_str()));
            assert(texts(prefix@) =~= before.push(full[k as int]));
            k += 1;
            assert(full.take(k as int) =~= full.take(k - 1).push(full[k - 1]));
        }
        match find_module(modules, root, &prefix) {
            Some(i) => {
                let skip_root = length == 0 && path.len() > 0 && !modules[i].symbols.contains(path[0].as_str());
                if !skip_root {
                    if modules[i].files.len() != 1 {
                        return Resolution::Unresolved("Rust module path has multiple possible source files.");
                    }
                    return Resolution::Internal(owned(modules[i].files[0].as_str()));
                }
            },
            None => {},
        }
        if length == 0 {
            break;
        }
        length -= 1;
    }
    if anchored {
        Resolution::Unresolved("Rust use path was not found in the declared local module tree.")
    } else {
        Resolution::External
    }
}

fn appended(a: &Vec<String>, b: &Vec<String>, from: usize) -> (r: Vec<String>)
    requires
        from <= b.len(),
    ensures
        texts(r@) == texts(a@) + texts(b@).skip(from as int),
{
    let mut r: Vec<String> = Vec::new();
    let mut i: usize = 0;
    while i < a.len()
        invariant
            i <= a.len(),
            texts(r@) == texts(a@).take(i as int),
        decreases a.len() - i,
    {
        let ghost before = texts(r@);
        r.push(owned(a[i].as_str()));
        assert(texts(r@) =~= before.push(texts(a@)[i as int]));
        i += 1;
        assert(texts(a@).take(i as int) =~= texts(a@).take(i - 1).push(texts(a@)[i - 1]));
    }
    assert(texts(a@).take(a.len() as int) =~= texts(a@));
    let mut j = from;
    while j < b.len()
        invariant
            from <= j <= b.len(),
            texts(r@) == texts(a@) + texts(b@).subrange(from as int, j as int),
        decreases b.len() - j,
    {
        let ghost before = texts(r@);
        r.push(owned(b[j].as_str()));
        assert(texts(r@) =~= before.push(texts(b@)[j as int]));
        j += 1;
        assert(texts(b@).subrange(from as int, j as int) =~= texts(b@).subrange(from as int, j - 1).push(texts(b@)[j - 1]));
    }
    assert(texts(b@).subrange(from as int, b.len() as int) =~= texts(b@).skip(from as int));
    r
}


/// The root files of a list of libraries.
pub open spec fn roots_of(libraries: Seq<RustLibrary>) -> Seq<Seq<char>> {
    libraries.map_values(|l: RustLibrary| l.root@)
}

/// The root of the library a crate name selects: `None` when no library has
/// the name, `Some(None)` when the choice is not unique.
fn choose_library(libraries: &Vec<RustLibrary>, name: &str, manifest: &str) -> (r: Option<Option<String>>)
    ensures
        match r {
            None => named(libraries@, name@).len() == 0,
            Some(None) => named(libraries@, name@).len() > 0 && library_choices(libraries@, name@, manifest@).len() != 1,
            Some(Some(root)) => named(libraries@, name@).len() > 0 && library_choices(libraries@, name@, manifest@).len() == 1
                && root@ == library_choices(libraries@, name@, manifest@)[0].root@,
        },
{
    let ghost libs = libraries@;
    let mut all: Vec<String> = Vec::new();
    let mut local: Vec<String> = Vec::new();
    let ghost mut all_libs: Seq<RustLibrary> = Seq::empty();
    let ghost mut local_libs: Seq<RustLibrary> = Seq::empty();
    let mut i: usize = 0;
    let first = chars_of(name);
    let wanted = chars_of(manifest);
    assert(texts(all@) =~= roots_of(all_libs));
    assert(texts(local@) =~= roots_of(local_libs));
    while i < libraries.len()
        invariant
            i <= libraries.len(),
            first@ == name@,
            wanted@ == manifest@,
            libs == libraries@,
            all_libs == named(libs.take(i as int), name@),
            local_libs == in_manifest(all_libs, manifest@),
            texts(all@) == roots_of(all_libs),
            texts(local@) == roots_of(local_libs),
        decreases libraries.len() - i,
    {
        assert(libs.take(i + 1).drop_last() =~= libs.take(i as int));
        assert(libs.take(i + 1).last() == libs[i as int]);
        if vec_same(&chars_of(libraries[i].name.as_str()), &first) {
            let ghost old_all = all_libs;
            let ghost old_local = local_libs;
            let ghost before = texts(all@);
            proof {
                assert(old_all.push(libs[i as int]).drop_last() =~= old_all);
                all_libs = old_all.push(libs[i as int]);
            }
            all.push(owned(libraries[i].root.as_str()));
            assert(texts(all@) =~= before.push(libs[i as int].root@));
            assert(roots_of(all_libs) =~= roots_of(old_all).push(libs[i as int].root@));
            if vec_same(&chars_of(libraries[i].manifest.as_str()), &wanted) {
                let ghost before_local = texts(local@);
                proof {
                    local_libs = old_local.push(libs[i as int]);
                }
                local.push(owned(libraries[i].root.as_str()));
                assert(texts(local@) =~= before_local.push(libs[i as int].root@));
                assert(roots_of(local_libs) =~= roots_of(old_local).push(libs[i as int].root@));
            }
        }
        i += 1;
    }
    assert(libs.take(libraries.len() as int) =~= libs);
    if all.len() == 0 {
        return None;
    }
    let use_all = local.len() == 0;
    let choices = if use_all {
        all
    } else {
        local
    };
    if choices.len() != 1 {
        return Some(None);
    }
    proof {
        if use_all {
            assert(texts(choices@)[0] == roots_of(all_libs)[0]);
        } else {
            assert(texts(choices@)[0] == roots_of(local_libs)[0]);
        }
    }
    Some(Some(owned(choices[0].as_str())))
}

/// Resolves a `use` path against the declared module tree and the library
/// crates of the project.
pub fn resolve_use(modules: &Vec<RustModule>, libraries: &Vec<RustLibrary>, usage: &UsePath) -> (r: Resolution)
    ensures
        r@ == use_target(modules@, libraries@, usage.manifest@, usage.root@, texts(usage.scope@), texts(usage.path@)),
{
    let star = vec!['*'];
    let self_word = vec!['s', 'e', 'l', 'f'];
    let crate_word = vec!['c', 'r', 'a', 't', 'e'];
    let super_word = vec!['s', 'u', 'p', 'e', 'r'];
    assert(star@ =~= seq!['*']);
    assert(self_word@ =~= seq!['s', 'e', 'l', 'f']);
    assert(crate_word@ =~= seq!['c', 'r', 'a', 't', 'e']);
    assert(super_word@ =~= seq!['s', 'u', 'p', 'e', 'r']);
    let empty: Vec<String> = Vec::new();
    assert(texts(empty@) =~= Seq::<Seq<char>>::empty());
    let mut end = usage.path.len();
    if end > 0 && is_text(&usage.path[end - 1], &star) {
        end -= 1;
    }
    if end > 1 && is_text(&usage.path[end - 1], &self_word) {
        end -= 1;
    }
    let parts = appended(&empty, &vec_prefix(&usage.path, end), 0);
    let ghost p = texts(parts@);
    proof {
        let path = texts(usage.path@);
        let p1 = if path.len() > 0 && path.last() == seq!['*'] {
            path.drop_last()
        } else {
            path
        };
        assert(texts(vec_prefix_spec(usage.path@, end as int)) == path.take(end as int));
        assert(p =~= if p1.len() > 1 && p1.last() == seq!['s', 'e', 'l', 'f'] {
            p1.drop_last()
        } else {
            p1
        });
    }
    if parts.len() == 0 {
        return Resolution::Unresolved("Rust use path could not be resolved.");
    }
    let scope = &usage.scope;
    if is_text(&parts[0], &crate_word) {
        let rest = appended(&empty, &parts, 1);
        assert(texts(rest@) =~= p.drop_first());
        return lookup_tree(modules, usage.root.as_str(), &rest, true);
    }
    if is_text(&parts[0], &self_word) {
        let rest = appended(scope, &parts, 1);
        assert(texts(rest@) =~= texts(scope@) + p.drop_first());
        return lookup_tree(modules, usage.root.as_str(), &rest, true);
    }
    if is_text(&parts[0], &super_word) {
        let mut k: usize = 0;
        assert(p.skip(0) =~= p);
        while k < parts.len() && is_text(&parts[k], &super_word)
            invariant
                k <= parts.len(),
                p == texts(parts@),
                super_word@ == seq!['s', 'u', 'p', 'e', 'r'],
                supers(p) == k + supers(p.skip(k as int)),
            decreases parts.len() - k,
        {
            assert(p.skip(k as int).drop_first() =~= p.skip(k + 1));
            k += 1;
        }
        proof {
            if k < parts.len() {
                assert(p.skip(k as int)[0] == p[k as int]);
            }
            assert(supers(p.skip(k as int)) == 0);
        }
        if k > scope.len() {
            return Resolution::Unresolved("Rust super path escapes the crate root.");
        }
        let kept = vec_prefix(scope, scope.len() - k);
        let rest = appended(&kept, &parts, k);
        assert(texts(kept@) == texts(scope@).take(scope.len() - k)) by {
            assert(texts(vec_prefix_spec(scope@, scope.len() - k)) == texts(scope@).take(scope.len() - k));
        }
        return lookup_tree(modules, usage.root.as_str(), &rest, true);
    }
    let mut child = appended(scope, &empty, 0);
    child.push(owned(parts[0].as_str()));
    assert(texts(child@) =~= texts(scope@).push(p[0]));
    if find_module(modules, usage.root.as_str(), &child).is_some() {
        let rest = appended(scope, &parts, 0);
        assert(texts(parts@).skip(0) =~= texts(parts@));
        return lookup_tree(modules, usage.root.as_str(), &rest, false);
    }
    // Library crates of the project with this name.
    match choose_library(libraries, parts[0].as_str(), usage.manifest.as_str()) {
        None => {},
        Some(None) => {
            return Resolution::Unresolved("Rust crate name matches multiple local libraries.");
        },
        Some(Some(root)) => {
            let rest = appended(&empty, &parts, 1);
            assert(texts(rest@) =~= p.drop_first());
            return lookup_tree(modules, root.as_str(), &rest, false);
        },
    }
    let rest = appended(&empty, &parts, 0);
    assert(texts(rest@) =~= p);
    lookup_tree(modules, usage.root.as_str(), &rest, false)
}

/// The first `n` elements of a list.
pub open spec fn vec_prefix_spec(v: Seq<String>, n: int) -> Seq<String> {
    v.take(n)
}

fn vec_prefix(v: &Vec<String>, n: usize) -> (r: Vec<String>)
    requires
        n <= v.len(),
    ensures
        texts(r@) == texts(vec_prefix_spec(v@, n as int)),
{
    let mut r: Vec<String> = Vec::new();
    let mut i: usize = 0;
    while i < n
        invariant
            i <= n <= v.len(),
            texts(r@) == texts(v@.take(i as int)),
        decreases n - i,
    {
        let ghost before = texts(r@);
        r.push(owned(v[i].as_str()));
        assert(texts(r@) =~= before.push(v@[i as int]@));
        i += 1;
        assert(texts(v@.take(i as int)) =~= texts(v@.take(i - 1)).push(v@[i - 1]@));
    }
    r
}

} // verus!
