//! Go module mode: the module path that a `go.mod` declares, string literals
//! of import paths, and the package directory that an import path names.
use vstd::prelude::*;
use crate::analysis::{is_white, white_space};
use crate::json::{json_string, json_string_value};
use crate::order::texts;
use crate::paths::{inside, join_path, joined, within};
use crate::resolver::{Resolution, ResolutionView};
use crate::text_util::{
    chars_of, has_prefix, owned, split_on, string_of, vec_has_prefix, vec_same, vec_slice, vec_split,
    views,
};

verus! {

/// `s` without its carriage returns.
pub open spec fn without_cr(s: Seq<char>) -> Seq<char>
    decreases s.len(),
{
    if s.len() == 0 {
        s
    } else if s.last() == '\r' {
        without_cr(s.drop_last())
    } else {
        without_cr(s.drop_last()).push(s.last())
    }
}

/// The string a Go literal denotes: a raw string between backquotes (carriage
/// returns dropped), otherwise an interpreted string, whose escapes are those
/// of JSON.
pub open spec fn go_unquoted(value: Seq<char>) -> Option<Seq<char>> {
    if value.len() >= 2 && value[0] == '`' && value.last() == '`' {
        Some(without_cr(value.subrange(1, value.len() - 1)))
    } else {
        json_string_value(value)
    }
}

/// Decodes a Go string literal.
pub fn unquote(value: &str) -> (r: Option<String>)
    ensures
        match r {
            Some(s) => go_unquoted(value@) == Some(s@),
            None => go_unquoted(value@) is None,
        },
{
    let v = chars_of(value);
    if v.len() >= 2 && v[0] == '`' && v[v.len() - 1] == '`' {
        let inner = vec_slice(&v, 1, v.len() - 1);
        let mut out: Vec<char> = Vec::new();
        let mut i: usize = 0;
        while i < inner.len()
            invariant
                i <= inner.len(),
                out@ == without_cr(inner@.take(i as int)),
            decreases inner.len() - i,
        {
            assert(inner@.take(i + 1).drop_last() =~= inner@.take(i as int));
            if inner[i] != '\r' {
                out.push(inner[i]);
            }
            i += 1;
        }
        assert(inner@.take(inner.len() as int) =~= inner@);
        Some(string_of(&out))
    } else {
        json_string(value)
    }
}

/// A line of `go.mod` from position `i` on with its comments removed, given
/// the characters kept so far and whether a block comment is open; also
/// whether one is still open at the end of the line.
pub open spec fn uncommented(line: Seq<char>, i: int, block: bool, kept: Seq<char>) -> (
    Seq<char>,
    bool,
)
    decreases line.len() - i,
{
    if i >= line.len() {
        (kept, block)
    } else if block {
        if i + 1 < line.len() && line[i] == '*' && line[i + 1] == '/' {
            uncommented(line, i + 2, false, kept)
        } else {
            uncommented(line, i + 1, true, kept)
        }
    } else if i + 1 < line.len() && line[i] == '/' && line[i + 1] == '/' {
        (kept, false)
    } else if i + 1 < line.len() && line[i] == '/' && line[i + 1] == '*' {
        uncommented(line, i + 2, true, kept)
    } else {
        uncommented(line, i + 1, false, kept.push(line[i]))
    }
}

/// The first position at or after `i` that is not white space.
pub open spec fn skip_white(s: Seq<char>, i: int) -> int
    decreases s.len() - i,
{
    if 0 <= i < s.len() && white_space(s[i]) {
        skip_white(s, i + 1)
    } else {
        i
    }
}

/// The first position at or after `i` that is white space, or the end.
pub open spec fn word_end(s: Seq<char>, i: int) -> int
    decreases s.len() - i,
{
    if 0 <= i < s.len() && !white_space(s[i]) {
        word_end(s, i + 1)
    } else {
        i
    }
}

proof fn lemma_skip_white(s: Seq<char>, i: int)
    requires
        0 <= i <= s.len(),
    ensures
        i <= skip_white(s, i) <= s.len(),
        skip_white(s, i) < s.len() ==> !white_space(s[skip_white(s, i)]),
    decreases s.len() - i,
{
    if i < s.len() && white_space(s[i]) {
        lemma_skip_white(s, i + 1);
    }
}

proof fn lemma_word_end(s: Seq<char>, i: int)
    requires
        0 <= i <= s.len(),
    ensures
        i <= word_end(s, i) <= s.len(),
        i < s.len() && !white_space(s[i]) ==> i < word_end(s, i),
    decreases s.len() - i,
{
    if i < s.len() && !white_space(s[i]) {
        lemma_word_end(s, i + 1);
    }
}

/// What one comment-free line of `go.mod` says of the module path: `None` when
/// it is no `module` directive, `Some(Some(path))` for a usable path and
/// `Some(None)` for a directive whose path is missing or not a valid literal,
/// which ends the search.
pub open spec fn module_line(cleaned: Seq<char>) -> Option<Option<Seq<char>>> {
    let a = skip_white(cleaned, 0);
    let b = word_end(cleaned, a);
    if cleaned.subrange(a, b) == seq!['m', 'o', 'd', 'u', 'l', 'e'] {
        let c = skip_white(cleaned, b);
        if c >= cleaned.len() {
            Some(None)
        } else {
            let value = cleaned.subrange(c, word_end(cleaned, c));
            if value[0] == '"' || value[0] == '`' {
                match go_unquoted(value) {
                    None => Some(None),
                    Some(v) => if v.len() > 0 {
                        Some(Some(v))
                    } else {
                        None
                    },
                }
            } else {
                Some(Some(value))
            }
        }
    } else {
        None
    }
}

/// The module path declared from line `k` on, with a block comment open or not
/// at its start.
pub open spec fn module_from(lines: Seq<Seq<char>>, k: int, block: bool) -> Option<Seq<char>>
    decreases lines.len() - k,
{
    if k < 0 || k >= lines.len() {
        None
    } else {
        let (cleaned, open) = uncommented(lines[k], 0, block, Seq::empty());
        match module_line(cleaned) {
            Some(answer) => answer,
            None => module_from(lines, k + 1, open),
        }
    }
}

/// The module path that a `go.mod` text declares: the first `module`
/// directive outside comments.
pub open spec fn go_module_name(config: Seq<char>) -> Option<Seq<char>> {
    module_from(split_on(config, '\n'), 0, false)
}

fn strip_comments(line: &Vec<char>, block: bool) -> (r: (Vec<char>, bool))
    ensures
        (r.0@, r.1) == uncommented(line@, 0, block, Seq::empty()),
{
    let mut kept: Vec<char> = Vec::new();
    let mut open = block;
    let mut i: usize = 0;
    while i < line.len()
        invariant
            i <= line.len(),
            uncommented(line@, i as int, open, kept@) == uncommented(line@, 0, block, Seq::empty()),
        decreases line.len() - i,
    {
        if open {
            if i + 1 < line.len() && line[i] == '*' && line[i + 1] == '/' {
                open = false;
                i += 2;
            } else {
                i += 1;
            }
        } else if i + 1 < line.len() && line[i] == '/' && line[i + 1] == '/' {
            return (kept, false);
        } else if i + 1 < line.len() && line[i] == '/' && line[i + 1] == '*' {
            open = true;
            i += 2;
        } else {
            kept.push(line[i]);
            i += 1;
        }
    }
    (kept, open)
}

fn skip_white_from(s: &Vec<char>, i: usize) -> (r: usize)
    requires
        i <= s.len(),
    ensures
        r == skip_white(s@, i as int),
        i <= r <= s.len(),
{
    let mut j = i;
    while j < s.len() && is_white(s[j])
        invariant
            i <= j <= s.len(),
            skip_white(s@, j as int) == skip_white(s@, i as int),
        decreases s.len() - j,
    {
        j += 1;
    }
    j
}

fn word_end_from(s: &Vec<char>, i: usize) -> (r: usize)
    requires
        i <= s.len(),
    ensures
        r == word_end(s@, i as int),
        i <= r <= s.len(),
{
    let mut j = i;
    while j < s.len() && !is_white(s[j])
        invariant
            i <= j <= s.len(),
            word_end(s@, j as int) == word_end(s@, i as int),
        decreases s.len() - j,
    {
        j += 1;
    }
    j
}

fn line_module(cleaned: &Vec<char>) -> (r: Option<Option<String>>)
    ensures
        match r {
            None => module_line(cleaned@) is None,
            Some(None) => module_line(cleaned@) == Some(None::<Seq<char>>),
            Some(Some(s)) => module_line(cleaned@) == Some(Some(s@)),
        },
{
    let a = skip_white_from(cleaned, 0);
    let b = word_end_from(cleaned, a);
    let first = vec_slice(cleaned, a, b);
    let keyword = vec!['m', 'o', 'd', 'u', 'l', 'e'];
    assert(keyword@ =~= seq!['m', 'o', 'd', 'u', 'l', 'e']);
    if !vec_same(&first, &keyword) {
        return None;
    }
    let c = skip_white_from(cleaned, b);
    if c >= cleaned.len() {
        return Some(None);
    }
    let d = word_end_from(cleaned, c);
    proof {
        lemma_skip_white(cleaned@, b as int);
        lemma_word_end(cleaned@, c as int);
    }
    let value = vec_slice(cleaned, c, d);
    if value[0] == '"' || value[0] == '`' {
        let text = string_of(&value);
        match unquote(text.as_str()) {
            None => Some(None),
            Some(v) => {
                if v.as_str().unicode_len() > 0 {
                    Some(Some(v))
                } else {
                    proof {
                        assert(v@.len() == 0);
                    }
                    None
                }
            },
        }
    } else {
        Some(Some(string_of(&value)))
    }
}

/// The module path declared by a `go.mod` text, if any.
pub fn module_name(config: &str) -> (r: Option<String>)
    ensures
        match r {
            Some(s) => go_module_name(config@) == Some(s@),
            None => go_module_name(config@) is None,
        },
{
    let lines = vec_split(&chars_of(config), '\n');
    let mut block = false;
    let mut k: usize = 0;
    while k < lines.len()
        invariant
            k <= lines.len(),
            views(lines@) == split_on(config@, '\n'),
            module_from(views(lines@), k as int, block) == go_module_name(config@),
        decreases lines.len() - k,
    {
        assert(views(lines@)[k as int] == lines@[k as int]@);
        let (cleaned, open) = strip_comments(&lines[k], block);
        match line_module(&cleaned) {
            Some(answer) => {
                return answer;
            },
            None => {},
        }
        block = open;
        k += 1;
    }
    None
}

/// A Go module found in the project: the directory of its `go.mod` and the
/// module path it declares.
pub struct GoModule {
    pub directory: String,
    pub name: String,
}

/// A directory with production Go files: each file and the package name it
/// declares, in the same order.
pub struct GoPackage {
    pub directory: String,
    pub files: Vec<String>,
    pub names: Vec<String>,
}

/// The mathematical value of a [`GoPackage`].
pub struct GoPackageView {
    pub directory: Seq<char>,
    pub files: Seq<Seq<char>>,
    pub names: Seq<Seq<char>>,
}

impl View for GoModule {
    type V = (Seq<char>, Seq<char>);

    open spec fn view(&self) -> (Seq<char>, Seq<char>) {
        (self.directory@, self.name@)
    }
}

impl View for GoPackage {
    type V = GoPackageView;

    open spec fn view(&self) -> GoPackageView {
        GoPackageView { directory: self.directory@, files: texts(self.files@), names: texts(self.names@) }
    }
}

/// Whether an import path lies in the module with path `name`.
pub open spec fn in_module(specifier: Seq<char>, name: Seq<char>) -> bool {
    specifier == name || has_prefix(specifier, name + seq!['/'])
}

/// The length of the longest module path that the import lies in, or -1.
pub open spec fn longest(modules: Seq<(Seq<char>, Seq<char>)>, specifier: Seq<char>) -> int
    decreases modules.len(),
{
    if modules.len() == 0 {
        -1
    } else {
        let rest = longest(modules.drop_last(), specifier);
        let m = modules.last();
        if in_module(specifier, m.1) && m.1.len() > rest {
            m.1.len() as int
        } else {
            rest
        }
    }
}

/// How many modules with a path of length `n` the import lies in.
pub open spec fn matching_count(modules: Seq<(Seq<char>, Seq<char>)>, specifier: Seq<char>, n: int) -> nat
    decreases modules.len(),
{
    if modules.len() == 0 {
        0
    } else {
        matching_count(modules.drop_last(), specifier, n) + if in_module(specifier, modules.last().1)
            && modules.last().1.len() == n {
            1nat
        } else {
            0nat
        }
    }
}

/// The position of the last module with a path of length `n` that the import
/// lies in.
pub open spec fn matching_at(modules: Seq<(Seq<char>, Seq<char>)>, specifier: Seq<char>, n: int) -> int
    decreases modules.len(),
{
    if modules.len() == 0 {
        -1
    } else if in_module(specifier, modules.last().1) && modules.last().1.len() == n {
        modules.len() - 1
    } else {
        matching_at(modules.drop_last(), specifier, n)
    }
}

proof fn lemma_matching_at(modules: Seq<(Seq<char>, Seq<char>)>, specifier: Seq<char>, n: int)
    requires
        matching_count(modules, specifier, n) > 0,
    ensures
        0 <= matching_at(modules, specifier, n) < modules.len(),
        in_module(specifier, modules[matching_at(modules, specifier, n)].1),
        modules[matching_at(modules, specifier, n)].1.len() == n,
    decreases modules.len(),
{
    if !(in_module(specifier, modules.last().1) && modules.last().1.len() == n) {
        lemma_matching_at(modules.drop_last(), specifier, n);
    }
}

/// `s` without its leading slashes.
pub open spec fn trim_slashes(s: Seq<char>) -> Seq<char>
    decreases s.len(),
{
    if s.len() > 0 && s[0] == '/' {
        trim_slashes(s.subrange(1, s.len() as int))
    } else {
        s
    }
}

/// The first package entry for `directory`.
pub open spec fn package_at(packages: Seq<GoPackageView>, directory: Seq<char>) -> int
    decreases packages.len(),
{
    if packages.len() == 0 {
        -1
    } else {
        let before = package_at(packages.drop_last(), directory);
        if before >= 0 {
            before
        } else if packages.last().directory == directory {
            packages.len() - 1
        } else {
            -1
        }
    }
}

/// Whether the files of a directory declare exactly one package name.
pub open spec fn one_package(names: Seq<Seq<char>>) -> bool {
    names.len() > 0 && forall|i: int| 0 <= i < names.len() ==> #[trigger] names[i] == names[0]
}

/// Where a Go import path leads in module mode: every production file of the
/// package directory it names inside the one longest local module that holds
/// it, `External` when no local module holds it, and otherwise the reason it
/// cannot be resolved.
pub open spec fn go_package(
    specifier: Seq<char>,
    modules: Seq<(Seq<char>, Seq<char>)>,
    packages: Seq<GoPackageView>,
) -> Seq<ResolutionView> {
    if has_prefix(specifier, seq!['.']) || has_prefix(specifier, seq!['/']) || specifier.contains(
        '\\',
    ) || specifier.contains('\0') {
        seq![ResolutionView::Unresolved("Go relative or absolute imports are not resolved in module mode."@)]
    } else if longest(modules, specifier) < 0 {
        seq![ResolutionView::External]
    } else if matching_count(modules, specifier, longest(modules, specifier)) != 1 {
        seq![ResolutionView::Unresolved("Go module path matches multiple local modules."@)]
    } else {
        let module = modules[matching_at(modules, specifier, longest(modules, specifier))];
        below(
            module,
            trim_slashes(specifier.subrange(module.1.len() as int, specifier.len() as int)),
            modules,
            packages,
        )
    }
}

/// Where the import leads once its module is chosen: `suffix` is the rest of
/// the import path below the module path.
pub open spec fn below(
    module: (Seq<char>, Seq<char>),
    suffix: Seq<char>,
    modules: Seq<(Seq<char>, Seq<char>)>,
    packages: Seq<GoPackageView>,
) -> Seq<ResolutionView> {
    let pieces = split_on(suffix, '/');
    let directory = joined(module.0, suffix);
    if pieces.contains(seq!['.']) || pieces.contains(seq!['.', '.']) {
        seq![ResolutionView::Unresolved("Go import path contains an invalid path component."@)]
    } else if exists|k: int|
        0 <= k < modules.len() && #[trigger] modules[k].0 != module.0 && inside(modules[k].0, module.0)
            && inside(directory, modules[k].0) {
        seq![ResolutionView::Unresolved("Go import crosses a nested module boundary."@)]
    } else if package_at(packages, directory) < 0 {
        seq![ResolutionView::Unresolved("Go local package has no scanned production source files."@)]
    } else if !one_package(packages[package_at(packages, directory)].names) {
        seq![ResolutionView::Unresolved("Go directory contains multiple production package names."@)]
    } else {
        packages[package_at(packages, directory)].files.map_values(
            |f: Seq<char>| ResolutionView::Internal(f),
        )
    }
}

/// The views of a list of modules.
pub open spec fn module_views(modules: Seq<GoModule>) -> Seq<(Seq<char>, Seq<char>)> {
    modules.map_values(|m: GoModule| m@)
}

/// The views of a list of packages.
pub open spec fn package_views(packages: Seq<GoPackage>) -> Seq<GoPackageView> {
    packages.map_values(|p: GoPackage| p@)
}

/// The views of a list of resolutions.
pub open spec fn resolution_views(r: Seq<Resolution>) -> Seq<ResolutionView> {
    r.map_values(|x: Resolution| x@)
}

fn has_char(v: &Vec<char>, c: char) -> (r: bool)
    ensures
        r == v@.contains(c),
{
    let mut i: usize = 0;
    while i < v.len()
        invariant
            i <= v.len(),
            forall|k: int| 0 <= k < i ==> v@[k] != c,
        decreases v.len() - i,
    {
        if v[i] == c {
            assert(v@[i as int] == c);
            return true;
        }
        i += 1;
    }
    false
}

fn module_holds(specifier: &Vec<char>, name: &Vec<char>) -> (r: bool)
    ensures
        r == in_module(specifier@, name@),
{
    let mut slashed = name.clone();
    slashed.push('/');
    assert(slashed@ =~= name@ + seq!['/']);
    vec_same(specifier, name) || vec_has_prefix(specifier, &slashed)
}

/// Resolves a Go import path against the local modules and the production
/// package directories.
pub fn resolve_package(specifier: &str, modules: &Vec<GoModule>, packages: &Vec<GoPackage>) -> (r:
    Vec<Resolution>)
    ensures
        resolution_views(r@) == go_package(specifier@, module_views(modules@), package_views(packages@)),
{
    let s = chars_of(specifier);
    let ghost mods = module_views(modules@);
    let ghost pkgs = package_views(packages@);
    proof {
        crate::text_util::lemma_short_prefix(s@, '.', '.');
        crate::text_util::lemma_short_prefix(s@, '/', '/');
    }
    if (s.len() >= 1 && s[0] == '.') || (s.len() >= 1 && s[0] == '/') || has_char(&s, '\\')
        || has_char(&s, '\0') {
        let r = vec![Resolution::Unresolved("Go relative or absolute imports are not resolved in module mode.")];
        assert(resolution_views(r@) =~= go_package(specifier@, mods, pkgs));
        return r;
    }
    // The longest module path that holds the import, and how many share it.
    let mut best: usize = 0;
    let mut found = false;
    let mut i: usize = 0;
    while i < modules.len()
        invariant
            i <= modules.len(),
            s@ == specifier@,
            mods == module_views(modules@),
            longest(mods.take(i as int), s@) == if found { best as int } else { -1 },
        decreases modules.len() - i,
    {
        assert(mods.take(i + 1).drop_last() =~= mods.take(i as int));
        assert(mods.take(i + 1).last() == modules@[i as int]@);
        let name = chars_of(modules[i].name.as_str());
        if module_holds(&s, &name) && (!found || name.len() > best) {
            best = name.len();
            found = true;
        }
        i += 1;
    }
    assert(mods.take(modules.len() as int) =~= mods);
    if !found {
        let r = vec![Resolution::External];
        assert(resolution_views(r@) =~= go_package(specifier@, mods, pkgs));
        return r;
    }
    let mut count: usize = 0;
    let mut at: usize = 0;
    let mut j: usize = 0;
    while j < modules.len()
        invariant
            j <= modules.len(),
            s@ == specifier@,
            mods == module_views(modules@),
            count <= j,
            matching_count(mods.take(j as int), s@, best as int) == count,
            matching_at(mods.take(j as int), s@, best as int) == if count > 0 { at as int } else { -1 },
            count > 0 ==> at < j,
        decreases modules.len() - j,
    {
        assert(mods.take(j + 1).drop_last() =~= mods.take(j as int));
        assert(mods.take(j + 1).last() == modules@[j as int]@);
        let name = chars_of(modules[j].name.as_str());
        if module_holds(&s, &name) && name.len() == best {
            count += 1;
            at = j;
        }
        j += 1;
    }
    assert(mods.take(modules.len() as int) =~= mods);
    if count != 1 {
        let r = vec![Resolution::Unresolved("Go module path matches multiple local modules.")];
        assert(resolution_views(r@) =~= go_package(specifier@, mods, pkgs));
        return r;
    }
    let module = &modules[at];
    assert(mods[at as int] == module@);
    let name = chars_of(module.name.as_str());
    proof {
        lemma_matching_at(mods, s@, best as int);
        assert(matching_at(mods, s@, longest(mods, s@)) == at);
        assert(in_module(s@, name@));
        assert(name@.len() <= s@.len());
    }
    // The rest of the path below the module, without its leading slashes.
    let mut start = name.len();
    assert(s@.subrange(start as int, s@.len() as int) =~= s@.subrange(name@.len() as int, s@.len() as int));
    while start < s.len() && s[start] == '/'
        invariant
            name.len() <= start <= s.len(),
            trim_slashes(s@.subrange(start as int, s.len() as int)) == trim_slashes(
                s@.subrange(name.len() as int, s.len() as int),
            ),
        decreases s.len() - start,
    {
        assert(s@.subrange(start as int, s.len() as int).subrange(1, s.len() - start) =~= s@.subrange(
            start + 1,
            s.len() as int,
        ));
        start += 1;
    }
    let suffix = vec_slice(&s, start, s.len());
    let ghost suffix_view = trim_slashes(specifier@.subrange(module@.1.len() as int, specifier@.len() as int));
    assert(suffix@ == suffix_view);
    let ghost answer = go_package(specifier@, mods, pkgs);
    assert(answer == below(module@, suffix_view, mods, pkgs));
    let pieces = vec_split(&suffix, '/');
    let mut p: usize = 0;
    while p < pieces.len()
        invariant
            p <= pieces.len(),
            mods == module_views(modules@),
            pkgs == package_views(packages@),
            answer == go_package(specifier@, mods, pkgs),
            answer == below(module@, suffix_view, mods, pkgs),
            views(pieces@) == split_on(suffix_view, '/'),
            forall|k: int| 0 <= k < p ==> views(pieces@)[k] != seq!['.'] && views(pieces@)[k] != seq!['.', '.'],
        decreases pieces.len() - p,
    {
        let piece = &pieces[p];
        assert(views(pieces@)[p as int] == piece@);
        if (piece.len() == 1 && piece[0] == '.') || (piece.len() == 2 && piece[0] == '.' && piece[1] == '.') {
            proof {
                if piece.len() == 1 {
                    assert(piece@ =~= seq!['.']);
                } else {
                    assert(piece@ =~= seq!['.', '.']);
                }
            }
            let r = vec![Resolution::Unresolved("Go import path contains an invalid path component.")];
            proof {
                assert(views(pieces@) == split_on(suffix_view, '/'));
                if piece.len() == 1 {
                    assert(views(pieces@).contains(seq!['.']));
                } else {
                    assert(views(pieces@).contains(seq!['.', '.']));
                }
            }
            assert(resolution_views(r@) =~= go_package(specifier@, mods, pkgs));
            return r;
        }
        proof {
            if piece@ == seq!['.'] {
                assert(piece@[0] == '.');
            }
            if piece@ == seq!['.', '.'] {
                assert(piece@[0] == '.' && piece@[1] == '.');
            }
        }
        p += 1;
    }
    assert(!views(pieces@).contains(seq!['.'])) by {
        if views(pieces@).contains(seq!['.']) {
            let k = choose|k: int| 0 <= k < views(pieces@).len() && views(pieces@)[k] == seq!['.'];
            assert(views(pieces@)[k] != seq!['.']);
        }
    }
    assert(!views(pieces@).contains(seq!['.', '.'])) by {
        if views(pieces@).contains(seq!['.', '.']) {
            let k = choose|k: int| 0 <= k < views(pieces@).len() && views(pieces@)[k] == seq!['.', '.'];
            assert(views(pieces@)[k] != seq!['.', '.']);
        }
    }
    let suffix_text = string_of(&suffix);
    let directory = join_path(module.directory.as_str(), suffix_text.as_str());
    assert(directory@ == joined(module@.0, suffix_view));
    // A nested module owns its own subtree.
    let mut n: usize = 0;
    while n < modules.len()
        invariant
            n <= modules.len(),
            mods == module_views(modules@),
            pkgs == package_views(packages@),
            answer == go_package(specifier@, mods, pkgs),
            answer == below(module@, suffix_view, mods, pkgs),
            !split_on(suffix_view, '/').contains(seq!['.']),
            !split_on(suffix_view, '/').contains(seq!['.', '.']),
            directory@ == joined(module@.0, suffix_view),
            forall|k: int| 0 <= k < n ==> !(#[trigger] mods[k].0 != module@.0 && inside(mods[k].0, module@.0)
                && inside(directory@, mods[k].0)),
        decreases modules.len() - n,
    {
        let other = &modules[n];
        assert(mods[n as int] == other@);
        if !vec_same(&chars_of(other.directory.as_str()), &chars_of(module.directory.as_str()))
            && within(other.directory.as_str(), module.directory.as_str())
            && within(directory.as_str(), other.directory.as_str()) {
            assert(mods[n as int].0 != module@.0 && inside(mods[n as int].0, module@.0) && inside(
                directory@,
                mods[n as int].0,
            ));
            let r = vec![Resolution::Unresolved("Go import crosses a nested module boundary.")];
            assert(resolution_views(r@) =~= go_package(specifier@, mods, pkgs));
            return r;
        }
        n += 1;
    }
    // The package directory itself.
    let mut q: usize = 0;
    let mut hit = false;
    while q < packages.len() && !hit
        invariant
            q <= packages.len(),
            pkgs == package_views(packages@),
            package_at(pkgs.take(q as int), directory@) == -1,
            hit ==> q < packages.len() && pkgs[q as int].directory == directory@,
        decreases packages.len() - q, if hit { 0int } else { 1int },
    {
        assert(pkgs.take(q + 1).drop_last() =~= pkgs.take(q as int));
        assert(pkgs.take(q + 1).last() == packages@[q as int]@);
        if vec_same(&chars_of(packages[q].directory.as_str()), &chars_of(directory.as_str())) {
            hit = true;
        } else {
            q += 1;
        }
    }
    if q >= packages.len() {
        assert(pkgs.take(packages.len() as int) =~= pkgs);
        let r = vec![Resolution::Unresolved("Go local package has no scanned production source files.")];
        assert(resolution_views(r@) =~= go_package(specifier@, mods, pkgs));
        return r;
    }
    proof {
        lemma_package_at_prefix(pkgs, directory@, q as int);
    }
    let package = &packages[q];
    assert(pkgs[q as int] == package@);
    let names = &package.names;
    let mut same_name = names.len() > 0;
    let mut t: usize = 1;
    while same_name && t < names.len()
        invariant
            names.len() > 0 ==> 1 <= t <= names.len(),
            same_name ==> names.len() > 0,
            same_name ==> forall|k: int| 0 <= k < t ==> #[trigger] texts(names@)[k] == texts(names@)[0],
            !same_name ==> !one_package(texts(names@)),
        decreases names.len() - t,
    {
        if !vec_same(&chars_of(names[t].as_str()), &chars_of(names[0].as_str())) {
            assert(texts(names@)[t as int] != texts(names@)[0]);
            same_name = false;
        }
        t += 1;
    }
    if !same_name {
        let r = vec![Resolution::Unresolved("Go directory contains multiple production package names.")];
        assert(resolution_views(r@) =~= go_package(specifier@, mods, pkgs));
        return r;
    }
    let files = &package.files;
    let mut r: Vec<Resolution> = Vec::new();
    let mut f: usize = 0;
    while f < files.len()
        invariant
            f <= files.len(),
            r@.len() == f,
            forall|k: int| 0 <= k < f ==> #[trigger] r@[k]@ == ResolutionView::Internal(files@[k]@),
        decreases files.len() - f,
    {
        r.push(Resolution::Internal(owned(files[f].as_str())));
        f += 1;
    }
    assert(resolution_views(r@) =~= go_package(specifier@, mods, pkgs));
    r
}

proof fn lemma_package_at_prefix(packages: Seq<GoPackageView>, directory: Seq<char>, q: int)
    requires
        0 <= q < packages.len(),
        package_at(packages.take(q), directory) == -1,
        packages[q].directory == directory,
    ensures
        package_at(packages, directory) == q,
    decreases packages.len() - q,
{
    if q + 1 < packages.len() {
        assert(packages.take(q + 1).drop_last() =~= packages.take(q));
        lemma_package_at_extends(packages, directory, q + 1);
    } else {
        assert(packages.drop_last() =~= packages.take(q));
    }
}

proof fn lemma_package_at_extends(packages: Seq<GoPackageView>, directory: Seq<char>, j: int)
    requires
        1 <= j <= packages.len(),
        package_at(packages.take(j), directory) >= 0,
    ensures
        package_at(packages, directory) == package_at(packages.take(j), directory),
    decreases packages.len() - j,
{
    if j < packages.len() {
        assert(packages.take(j + 1).drop_last() =~= packages.take(j));
        lemma_package_at_extends(packages, directory, j + 1);
    } else {
        assert(packages.take(j) =~= packages);
    }
}

/// A Go test file.
pub open spec fn test_file(id: Seq<char>) -> bool {
    crate::text_util::has_suffix(id, seq!['_', 't', 'e', 's', 't', '.', 'g', 'o'])
}

/// The declaring files a file may use: test files only from test files.
pub open spec fn visible_declarations(importer: Seq<char>, candidates: Seq<Seq<char>>) -> Seq<Seq<char>>
    decreases candidates.len(),
{
    if candidates.len() == 0 {
        Seq::empty()
    } else {
        let rest = visible_declarations(importer, candidates.drop_last());
        if test_file(importer) || !test_file(candidates.last()) {
            rest.push(candidates.last())
        } else {
            rest
        }
    }
}

/// Where a package-level name used without import leads: the one file of the
/// package that declares it (nothing when that is the user itself), or the
/// reason when several files declare it.
pub open spec fn package_symbol_of(importer: Seq<char>, candidates: Seq<Seq<char>>) -> Option<ResolutionView> {
    let visible = visible_declarations(importer, candidates);
    if visible.len() == 1 && visible[0] != importer {
        Some(ResolutionView::Internal(visible[0]))
    } else if visible.len() > 1 {
        Some(ResolutionView::Unresolved("Go package symbol has multiple possible declaration files."@))
    } else {
        None
    }
}

/// Resolves a package-level name of `importer` against the files of its
/// package that declare that name.
pub fn package_symbol(importer: &str, candidates: &Vec<String>) -> (r: Option<Resolution>)
    ensures
        match r {
            Some(x) => package_symbol_of(importer@, texts(candidates@)) == Some(x@),
            None => package_symbol_of(importer@, texts(candidates@)) is None,
        },
{
    let suffix = vec!['_', 't', 'e', 's', 't', '.', 'g', 'o'];
    assert(suffix@ =~= seq!['_', 't', 'e', 's', 't', '.', 'g', 'o']);
    let importer_test = crate::text_util::vec_has_suffix(&chars_of(importer), &suffix);
    let ghost cv = texts(candidates@);
    let mut visible: Vec<String> = Vec::new();
    let mut i: usize = 0;
    assert(cv.take(0) =~= Seq::<Seq<char>>::empty());
    assert(texts(visible@) =~= Seq::<Seq<char>>::empty());
    while i < candidates.len()
        invariant
            i <= candidates.len(),
            cv == texts(candidates@),
            importer_test == test_file(importer@),
            suffix@ == seq!['_', 't', 'e', 's', 't', '.', 'g', 'o'],
            texts(visible@) == visible_declarations(importer@, cv.take(i as int)),
        decreases candidates.len() - i,
    {
        assert(cv.take(i + 1).drop_last() =~= cv.take(i as int));
        assert(cv.take(i + 1).last() == candidates@[i as int]@);
        let id = candidates[i].as_str();
        if importer_test || !crate::text_util::vec_has_suffix(&chars_of(id), &suffix) {
            let ghost before = texts(visible@);
            visible.push(owned(id));
            assert(texts(visible@) =~= before.push(id@));
        }
        i += 1;
    }
    assert(cv.take(candidates.len() as int) =~= cv);
    if visible.len() == 1 && !vec_same(&chars_of(visible[0].as_str()), &chars_of(importer)) {
        assert(texts(visible@)[0] == visible@[0]@);
        Some(Resolution::Internal(owned(visible[0].as_str())))
    } else if visible.len() > 1 {
        Some(Resolution::Unresolved("Go package symbol has multiple possible declaration files."))
    } else {
        proof {
            if visible.len() == 1 {
                assert(texts(visible@)[0] == visible@[0]@);
            }
        }
        None
    }
}

/// The module paths that hold an import path are no longer than it.
proof fn lemma_longest_upper(ms: Seq<(Seq<char>, Seq<char>)>, s: Seq<char>)
    ensures
        longest(ms, s) <= s.len(),
    decreases ms.len(),
{
    if ms.len() > 0 {
        lemma_longest_upper(ms.drop_last(), s);
        let m = ms.last();
        if in_module(s, m.1) && m.1 != s {
            assert(s.subrange(0, m.1.len() + 1 as int) == m.1 + seq!['/']);
        }
    }
}

/// A module that holds the import path makes the longest match at least as long.
proof fn lemma_longest_lower(ms: Seq<(Seq<char>, Seq<char>)>, s: Seq<char>, i: int)
    requires
        0 <= i < ms.len(),
        in_module(s, ms[i].1),
    ensures
        longest(ms, s) >= ms[i].1.len(),
    decreases ms.len(),
{
    if i < ms.len() - 1 {
        lemma_longest_lower(ms.drop_last(), s, i);
        assert(ms.drop_last()[i] == ms[i]);
    }
}

/// A module path as long as the import path holds it only when it is the import path.
proof fn lemma_full_length_holder(s: Seq<char>, name: Seq<char>)
    requires
        in_module(s, name),
        name.len() == s.len(),
    ensures
        name == s,
{
    if name != s {
        assert(s.subrange(0, name.len() + 1 as int) == name + seq!['/']);
    }
}

/// With exactly one module whose path is the import path, it is the one match
/// of full length.
proof fn lemma_single_full_match(ms: Seq<(Seq<char>, Seq<char>)>, s: Seq<char>, i: int)
    requires
        0 <= i < ms.len(),
        ms[i].1 == s,
        forall|j: int| 0 <= j < ms.len() && j != i ==> #[trigger] ms[j].1 != s,
    ensures
        matching_count(ms, s, s.len() as int) == 1,
        matching_at(ms, s, s.len() as int) == i,
    decreases ms.len(),
{
    let last = ms.len() - 1;
    if i < last {
        assert forall|j: int| 0 <= j < ms.drop_last().len() && j != i implies #[trigger] ms.drop_last()[j].1 != s by {
            assert(ms.drop_last()[j] == ms[j]);
        }
        assert(ms.drop_last()[i] == ms[i]);
        lemma_single_full_match(ms.drop_last(), s, i);
        if in_module(s, ms.last().1) && ms.last().1.len() == s.len() {
            lemma_full_length_holder(s, ms.last().1);
        }
    } else {
        lemma_no_full_match(ms.drop_last(), s);
    }
}

/// Without a module whose path is the import path, no match has full length.
proof fn lemma_no_full_match(ms: Seq<(Seq<char>, Seq<char>)>, s: Seq<char>)
    requires
        forall|j: int| 0 <= j < ms.len() ==> #[trigger] ms[j].1 != s,
    ensures
        matching_count(ms, s, s.len() as int) == 0,
    decreases ms.len(),
{
    if ms.len() > 0 {
        assert forall|j: int| 0 <= j < ms.drop_last().len() implies #[trigger] ms.drop_last()[j].1 != s by {
            assert(ms.drop_last()[j] == ms[j]);
        }
        lemma_no_full_match(ms.drop_last(), s);
        if in_module(s, ms.last().1) && ms.last().1.len() == s.len() {
            lemma_full_length_holder(s, ms.last().1);
            assert(ms[ms.len() - 1].1 != s);
        }
    }
}

/// The entry of a directory listed once.
proof fn lemma_package_once(ps: Seq<GoPackageView>, d: Seq<char>, p: int)
    requires
        0 <= p < ps.len(),
        ps[p].directory == d,
        forall|q: int| 0 <= q < ps.len() && q != p ==> #[trigger] ps[q].directory != d,
    ensures
        package_at(ps, d) == p,
    decreases ps.len(),
{
    if p < ps.len() - 1 {
        assert forall|q: int| 0 <= q < ps.drop_last().len() && q != p implies #[trigger] ps.drop_last()[q].directory != d by {
            assert(ps.drop_last()[q] == ps[q]);
        }
        assert(ps.drop_last()[p] == ps[p]);
        lemma_package_once(ps.drop_last(), d, p);
    } else {
        lemma_package_absent(ps.drop_last(), d);
    }
}

/// A directory not listed has no entry.
proof fn lemma_package_absent(ps: Seq<GoPackageView>, d: Seq<char>)
    requires
        forall|q: int| 0 <= q < ps.len() ==> #[trigger] ps[q].directory != d,
    ensures
        package_at(ps, d) == -1,
    decreases ps.len(),
{
    if ps.len() > 0 {
        assert forall|q: int| 0 <= q < ps.drop_last().len() implies #[trigger] ps.drop_last()[q].directory != d by {
            assert(ps.drop_last()[q] == ps[q]);
        }
        lemma_package_absent(ps.drop_last(), d);
        assert(ps[ps.len() - 1].directory != d);
    }
}

/// Law: an import path equal to a local module's path names that module's
/// root package. When exactly one local module has that path, and its
/// directory is listed once with production files of one package, the import
/// resolves to each of those files, in order.
pub proof fn law_module_path_names_its_root_package(
    specifier: Seq<char>,
    modules: Seq<(Seq<char>, Seq<char>)>,
    packages: Seq<GoPackageView>,
    i: int,
    p: int,
)
    requires
        !has_prefix(specifier, seq!['.']),
        !has_prefix(specifier, seq!['/']),
        !specifier.contains('\\'),
        !specifier.contains('\0'),
        0 <= i < modules.len(),
        modules[i].1 == specifier,
        forall|j: int| 0 <= j < modules.len() && j != i ==> #[trigger] modules[j].1 != specifier,
        0 <= p < packages.len(),
        packages[p].directory == modules[i].0,
        forall|q: int| 0 <= q < packages.len() && q != p ==> #[trigger] packages[q].directory != modules[i].0,
        one_package(packages[p].names),
    ensures
        go_package(specifier, modules, packages) == packages[p].files.map_values(|f: Seq<char>| ResolutionView::Internal(f)),
{
    lemma_longest_upper(modules, specifier);
    lemma_longest_lower(modules, specifier, i);
    let n = specifier.len() as int;
    assert(longest(modules, specifier) == n);
    lemma_single_full_match(modules, specifier, i);
    let module = modules[i];
    let rest = specifier.subrange(module.1.len() as int, specifier.len() as int);
    assert(rest =~= Seq::<char>::empty());
    assert(trim_slashes(rest) == rest);
    let suffix = trim_slashes(rest);
    let pieces = split_on(suffix, '/');
    assert(crate::text_util::last_index(suffix, '/') is None);
    assert(pieces == seq![suffix]);
    assert(!pieces.contains(seq!['.'])) by {
        if pieces.contains(seq!['.']) {
            assert(pieces[0] == suffix);
            assert(seq!['.'].len() == 1);
        }
    }
    assert(!pieces.contains(seq!['.', '.'])) by {
        if pieces.contains(seq!['.', '.']) {
            assert(pieces[0] == suffix);
        }
    }
    let directory = joined(module.0, suffix);
    assert(directory == module.0);
    assert(!exists|k: int|
        0 <= k < modules.len() && #[trigger] modules[k].0 != module.0 && inside(modules[k].0, module.0)
            && inside(directory, modules[k].0)) by {
        if exists|k: int|
            0 <= k < modules.len() && #[trigger] modules[k].0 != module.0 && inside(modules[k].0, module.0)
                && inside(directory, modules[k].0) {
            let k = choose|k: int|
                0 <= k < modules.len() && #[trigger] modules[k].0 != module.0 && inside(modules[k].0, module.0)
                    && inside(directory, modules[k].0);
            let a = modules[k].0;
            let b = module.0;
            assert(inside(a, b));
            assert(inside(b, a));
            if b.len() == 0 {
                if a.len() == 0 {
                    assert(a =~= b);
                }
                assert((a + seq!['/']).len() > b.len());
            } else if a.len() == 0 {
                assert((b + seq!['/']).len() > a.len());
            } else {
                assert(has_prefix(a, b + seq!['/']));
                assert(has_prefix(b, a + seq!['/']));
                assert(a.len() >= b.len() + 1);
                assert(b.len() >= a.len() + 1);
            }
        }
    }
    lemma_package_once(packages, module.0, p);
}

/// No module path holds the import path: there is no longest match.
proof fn lemma_no_holder(ms: Seq<(Seq<char>, Seq<char>)>, s: Seq<char>)
    requires
        forall|j: int| 0 <= j < ms.len() ==> #[trigger] ms[j].1 != s && !has_prefix(s, ms[j].1 + seq!['/']),
    ensures
        longest(ms, s) < 0,
    decreases ms.len(),
{
    if ms.len() > 0 {
        assert forall|j: int| 0 <= j < ms.drop_last().len() implies #[trigger] ms.drop_last()[j].1 != s
            && !has_prefix(s, ms.drop_last()[j].1 + seq!['/']) by {
            assert(ms.drop_last()[j] == ms[j]);
        }
        lemma_no_holder(ms.drop_last(), s);
        assert(ms.last() == ms[ms.len() - 1]);
    }
}

/// Law: an import path that is no local module path and lies below none is external.
pub proof fn law_foreign_paths_are_external(
    specifier: Seq<char>,
    modules: Seq<(Seq<char>, Seq<char>)>,
    packages: Seq<GoPackageView>,
)
    requires
        !has_prefix(specifier, seq!['.']),
        !has_prefix(specifier, seq!['/']),
        !specifier.contains('\\'),
        !specifier.contains('\0'),
        forall|j: int| 0 <= j < modules.len() ==> #[trigger] modules[j].1 != specifier && !has_prefix(
            specifier,
            modules[j].1 + seq!['/'],
        ),
    ensures
        go_package(specifier, modules, packages) == seq![ResolutionView::External],
{
    lemma_no_holder(modules, specifier);
}

/// Law: a relative or absolute import is not resolved in module mode.
pub proof fn law_relative_imports_are_refused(
    specifier: Seq<char>,
    modules: Seq<(Seq<char>, Seq<char>)>,
    packages: Seq<GoPackageView>,
)
    requires
        has_prefix(specifier, seq!['.']) || has_prefix(specifier, seq!['/']),
    ensures
        go_package(specifier, modules, packages) == seq![
            ResolutionView::Unresolved("Go relative or absolute imports are not resolved in module mode."@),
        ],
{
}

} // verus!
