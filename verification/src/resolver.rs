//! Relative JavaScript/TypeScript module resolution against the scanned files.
use vstd::prelude::*;
use crate::model::FileSet;
use crate::text_util::{
    lemma_short_prefix,
    before_last, chars_of, drop_empty, has_prefix, has_suffix, join_with, nonempty, split_on,
    string_of, vec_before_last, vec_concat, vec_contains, vec_has_prefix, vec_has_suffix,
    vec_join, vec_slice, vec_split, views,
};

verus! {

pub const EMPTY_PATH: &'static str = "空模块路径。";
pub const ALIAS: &'static str = "尚不解析绝对路径或项目路径别名。";
pub const FORMAT: &'static str = "不支持的相对路径格式。";
pub const QUERY: &'static str = "带查询参数、片段、空字符或反斜杠的导入未解析。";
pub const OUTSIDE: &'static str = "路径位于所选项目之外。";
pub const NOT_FOUND: &'static str = "在已扫描文件中未找到模块；它可能不存在、被忽略或使用尚不支持的解析规则。";

/// Where an import leads: a scanned file, something outside the project, or
/// nowhere that can be determined (with the reason).
#[derive(Clone, Debug, PartialEq, Eq, Hash)]
pub enum Resolution {
    Internal(String),
    External,
    Unresolved(&'static str),
}

/// The mathematical value of a [`Resolution`].
pub enum ResolutionView {
    Internal(Seq<char>),
    External,
    Unresolved(Seq<char>),
}

impl View for Resolution {
    type V = ResolutionView;

    open spec fn view(&self) -> ResolutionView {
        match self {
            Resolution::Internal(s) => ResolutionView::Internal(s@),
            Resolution::External => ResolutionView::External,
            Resolution::Unresolved(r) => ResolutionView::Unresolved(r@),
        }
    }
}

/// The source extensions tried, in order of precedence.
pub open spec fn js_extensions() -> Seq<Seq<char>> {
    seq![
        seq!['t', 's'],
        seq!['t', 's', 'x'],
        seq!['j', 's'],
        seq!['j', 's', 'x'],
        seq!['m', 'j', 's'],
        seq!['c', 'j', 's'],
        seq!['m', 't', 's'],
        seq!['c', 't', 's'],
    ]
}

/// Paths that are absolute, drive-qualified or written with an alias prefix.
pub open spec fn is_alias(s: Seq<char>) -> bool {
    ||| has_prefix(s, seq!['/'])
    ||| has_prefix(s, seq!['\\'])
    ||| (s.len() >= 2 && s[1] == ':' && (('a' <= s[0] && s[0] <= 'z') || ('A' <= s[0]
        && s[0] <= 'Z')))
    ||| has_prefix(s, seq!['#'])
    ||| has_prefix(s, seq!['@', '/'])
    ||| has_prefix(s, seq!['~', '/'])
}

/// `.`, `..`, `./…` or `../…`.
pub open spec fn is_relative_form(s: Seq<char>) -> bool {
    ||| s == seq!['.']
    ||| s == seq!['.', '.']
    ||| has_prefix(s, seq!['.', '/'])
    ||| has_prefix(s, seq!['.', '.', '/'])
}

/// The import names a directory rather than a file.
pub open spec fn is_directory_only(s: Seq<char>) -> bool {
    ||| has_suffix(s, seq!['/'])
    ||| s == seq!['.']
    ||| s == seq!['.', '.']
    ||| has_suffix(s, seq!['/', '.'])
    ||| has_suffix(s, seq!['/', '.', '.'])
}

/// Applies path components to a directory stack: `.` and empty components
/// stay, `..` leaves a directory (failing at the root), others enter one.
pub open spec fn walk(stack: Seq<Seq<char>>, parts: Seq<Seq<char>>) -> Option<Seq<Seq<char>>>
    decreases parts.len(),
{
    if parts.len() == 0 {
        Some(stack)
    } else {
        let p = parts[0];
        let rest = parts.drop_first();
        if p.len() == 0 || p == seq!['.'] {
            walk(stack, rest)
        } else if p == seq!['.', '.'] {
            if stack.len() == 0 {
                None
            } else {
                walk(stack.drop_last(), rest)
            }
        } else {
            walk(stack.push(p), rest)
        }
    }
}

/// The runtime-suffix fallbacks: `.js` to `.ts`/`.tsx`, `.jsx` to `.tsx`,
/// `.mjs` to `.mts`, `.cjs` to `.cts`.
pub open spec fn runtime_fallbacks(base: Seq<char>) -> Seq<Seq<char>> {
    let n = base.len() as int;
    (if has_suffix(base, seq!['.', 'j', 's']) {
        seq![
            base.subrange(0, n - 3) + seq!['.', 't', 's'],
            base.subrange(0, n - 3) + seq!['.', 't', 's', 'x'],
        ]
    } else {
        Seq::empty()
    }) + (if has_suffix(base, seq!['.', 'j', 's', 'x']) {
        seq![base.subrange(0, n - 4) + seq!['.', 't', 's', 'x']]
    } else {
        Seq::empty()
    }) + (if has_suffix(base, seq!['.', 'm', 'j', 's']) {
        seq![base.subrange(0, n - 4) + seq!['.', 'm', 't', 's']]
    } else {
        Seq::empty()
    }) + (if has_suffix(base, seq!['.', 'c', 'j', 's']) {
        seq![base.subrange(0, n - 4) + seq!['.', 'c', 't', 's']]
    } else {
        Seq::empty()
    })
}

/// `base/index.ext`, or `index.ext` at the project root.
pub open spec fn index_path(base: Seq<char>, ext: Seq<char>) -> Seq<char> {
    if base.len() == 0 {
        seq!['i', 'n', 'd', 'e', 'x', '.'] + ext
    } else {
        base + seq!['/', 'i', 'n', 'd', 'e', 'x', '.'] + ext
    }
}

/// Every file a resolved base path may denote, in order of precedence.
pub open spec fn candidates(base: Seq<char>, directory_only: bool) -> Seq<Seq<char>> {
    (if directory_only {
        Seq::empty()
    } else {
        seq![base] + runtime_fallbacks(base) + js_extensions().map_values(
            |e: Seq<char>| base + seq!['.'] + e,
        )
    }) + js_extensions().map_values(|e: Seq<char>| index_path(base, e))
}

/// The first candidate that is a scanned file.
pub open spec fn first_known(c: Seq<Seq<char>>, known: Set<Seq<char>>) -> Option<Seq<char>>
    decreases c.len(),
{
    if c.len() == 0 {
        None
    } else if known.contains(c[0]) {
        Some(c[0])
    } else {
        first_known(c.drop_first(), known)
    }
}

/// The resolution of `specifier` written in the file `importer`.
pub open spec fn resolution_of(
    importer: Seq<char>,
    s: Seq<char>,
    known: Set<Seq<char>>,
) -> ResolutionView {
    if s.len() == 0 {
        ResolutionView::Unresolved(EMPTY_PATH@)
    } else if s[0] != '.' {
        if is_alias(s) {
            ResolutionView::Unresolved(ALIAS@)
        } else {
            ResolutionView::External
        }
    } else if !is_relative_form(s) {
        ResolutionView::Unresolved(FORMAT@)
    } else if s.contains('?') || s.contains('#') || s.contains('\0') || s.contains('\\') {
        ResolutionView::Unresolved(QUERY@)
    } else {
        match walk(nonempty(split_on(before_last(importer, '/'), '/')), split_on(s, '/')) {
            None => ResolutionView::Unresolved(OUTSIDE@),
            Some(parts) => match first_known(
                candidates(join_with(parts, '/'), is_directory_only(s)),
                known,
            ) {
                Some(found) => ResolutionView::Internal(found),
                None => ResolutionView::Unresolved(NOT_FOUND@),
            },
        }
    }
}

/// The extension strings, as character vectors, in precedence order.
pub(crate) fn extension_list() -> (r: Vec<Vec<char>>)
    ensures
        views(r@) == js_extensions(),
{
    let r = vec![
        vec!['t', 's'],
        vec!['t', 's', 'x'],
        vec!['j', 's'],
        vec!['j', 's', 'x'],
        vec!['m', 'j', 's'],
        vec!['c', 'j', 's'],
        vec!['m', 't', 's'],
        vec!['c', 't', 's'],
    ];
    assert(views(r@) =~= js_extensions());
    r
}

/// Replaces the last `k` characters of `base` with `ext`.
fn restem(base: &Vec<char>, k: usize, ext: &Vec<char>) -> (r: Vec<char>)
    requires
        k <= base.len(),
    ensures
        r@ == base@.subrange(0, base.len() - k) + ext@,
{
    let stem = vec_slice(base, 0, base.len() - k);
    vec_concat(&stem, ext)
}

fn runtime_fallback_list(base: &Vec<char>) -> (r: Vec<Vec<char>>)
    ensures
        views(r@) == runtime_fallbacks(base@),
{
    let mut r: Vec<Vec<char>> = Vec::new();
    let ghost n = base@.len() as int;
    let ghost expect = runtime_fallbacks(base@);
    if vec_has_suffix(base, &vec!['.', 'j', 's']) {
        r.push(restem(base, 3, &vec!['.', 't', 's']));
        r.push(restem(base, 3, &vec!['.', 't', 's', 'x']));
    }
    let ghost a = views(r@);
    if vec_has_suffix(base, &vec!['.', 'j', 's', 'x']) {
        r.push(restem(base, 4, &vec!['.', 't', 's', 'x']));
    }
    let ghost b = views(r@);
    if vec_has_suffix(base, &vec!['.', 'm', 'j', 's']) {
        r.push(restem(base, 4, &vec!['.', 'm', 't', 's']));
    }
    let ghost c = views(r@);
    if vec_has_suffix(base, &vec!['.', 'c', 'j', 's']) {
        r.push(restem(base, 4, &vec!['.', 'c', 't', 's']));
    }
    assert(views(r@) =~= expect);
    r
}

fn candidate_list(base: &Vec<char>, directory_only: bool) -> (r: Vec<Vec<char>>)
    ensures
        views(r@) == candidates(base@, directory_only),
{
    let exts = extension_list();
    let mut r: Vec<Vec<char>> = Vec::new();
    if !directory_only {
        r.push(base.clone());
        let mut fallbacks = runtime_fallback_list(base);
        r.append(&mut fallbacks);
        let mut i: usize = 0;
        let ghost start = views(r@);
        while i < exts.len()
            invariant
                i <= exts.len(),
                views(exts@) == js_extensions(),
                views(r@) == start + js_extensions().map_values(
                    |e: Seq<char>| base@ + seq!['.'] + e,
                ).take(i as int),
            decreases exts.len() - i,
        {
            let with_dot = vec_concat(base, &vec!['.']);
            let ghost before = views(r@);
            let item = vec_concat(&with_dot, &exts[i]);
            proof {
                assert(views(exts@)[i as int] == exts@[i as int]@);
                assert(item@ == js_extensions().map_values(|e: Seq<char>| base@ + seq!['.'] + e)[i as int]);
            }
            r.push(item);
            assert(views(r@) =~= before.push(item@));
            i += 1;
            assert(views(r@) =~= start + js_extensions().map_values(
                |e: Seq<char>| base@ + seq!['.'] + e,
            ).take(i as int));
        }
        assert(js_extensions().map_values(|e: Seq<char>| base@ + seq!['.'] + e).take(8)
            =~= js_extensions().map_values(|e: Seq<char>| base@ + seq!['.'] + e));
        assert(views(r@) =~= seq![base@] + runtime_fallbacks(base@) + js_extensions().map_values(
            |e: Seq<char>| base@ + seq!['.'] + e,
        ));
    }
    let ghost start = views(r@);
    let mut i: usize = 0;
    while i < exts.len()
        invariant
            i <= exts.len(),
            views(exts@) == js_extensions(),
            views(r@) == start + js_extensions().map_values(
                |e: Seq<char>| index_path(base@, e),
            ).take(i as int),
        decreases exts.len() - i,
    {
        let prefix = if base.len() == 0 {
            vec!['i', 'n', 'd', 'e', 'x', '.']
        } else {
            vec_concat(base, &vec!['/', 'i', 'n', 'd', 'e', 'x', '.'])
        };
        let ghost before = views(r@);
        let item = vec_concat(&prefix, &exts[i]);
        proof {
            assert(views(exts@)[i as int] == exts@[i as int]@);
            assert(item@ == js_extensions().map_values(|e: Seq<char>| index_path(base@, e))[i as int]);
        }
        r.push(item);
        assert(views(r@) =~= before.push(item@));
        i += 1;
        assert(views(r@) =~= start + js_extensions().map_values(
            |e: Seq<char>| index_path(base@, e),
        ).take(i as int));
    }
    assert(js_extensions().map_values(|e: Seq<char>| index_path(base@, e)).take(8)
        =~= js_extensions().map_values(|e: Seq<char>| index_path(base@, e)));
    r
}

/// Walks the components of `parts` over the directory stack.
fn walk_parts(start: Vec<Vec<char>>, parts: &Vec<Vec<char>>) -> (r: Option<Vec<Vec<char>>>)
    ensures
        r is Some ==> walk(views(start@), views(parts@)) == Some(views(r->0@)),
        r is None ==> walk(views(start@), views(parts@)) is None,
{
    let mut stack = start;
    let ghost goal = walk(views(stack@), views(parts@));
    let mut i: usize = 0;
    assert(views(parts@).subrange(0, parts.len() as int) =~= views(parts@));
    while i < parts.len()
        invariant
            i <= parts.len(),
            goal == walk(views(start@), views(parts@)),
            goal == walk(views(stack@), views(parts@).subrange(i as int, parts.len() as int)),
        decreases parts.len() - i,
    {
        let ghost rest = views(parts@).subrange(i as int, parts.len() as int);
        proof {
            assert(rest[0] == parts@[i as int]@);
            assert(rest.drop_first() =~= views(parts@).subrange(i + 1, parts.len() as int));
        }
        let p = &parts[i];
        if p.len() == 0 || (p.len() == 1 && p[0] == '.') {
            proof {
                if p.len() == 1 {
                    assert(p@ =~= seq!['.']);
                }
            }
        } else if p.len() == 2 && p[0] == '.' && p[1] == '.' {
            assert(p@ =~= seq!['.', '.']);
            if stack.len() == 0 {
                proof {
                    assert(views(stack@).len() == 0);
                    assert(rest[0] == seq!['.', '.']);
                    assert(rest[0] != seq!['.']) by {
                        assert(rest[0].len() == 2);
                    }
                    assert(walk(views(stack@), rest) is None);
                    assert(goal is None);
                }
                return None;
            }
            let ghost before = views(stack@);
            stack.pop();
            assert(views(stack@) =~= before.drop_last());
        } else {
            proof {
                assert(p@ != seq!['.']) by {
                    if p@ == seq!['.'] {
                        assert(p@.len() == 1);
                    }
                }
                assert(p@ != seq!['.', '.']) by {
                    if p@ == seq!['.', '.'] {
                        assert(p@.len() == 2 && p@[0] == '.' && p@[1] == '.');
                    }
                }
            }
            let ghost before = views(stack@);
            stack.push(p.clone());
            assert(views(stack@) =~= before.push(p@));
        }
        i += 1;
    }
    assert(views(parts@).subrange(parts.len() as int, parts.len() as int) =~= Seq::<
        Seq<char>,
    >::empty());
    Some(stack)
}

/// Resolves `specifier`, written in the file `importer`, against the scanned
/// files `known`. Bare names are external; relative paths are resolved to the
/// first scanned file among the exact path, the runtime-suffix fallbacks, the
/// extensionless forms and the directory `index` forms.
pub fn resolve(importer: &str, specifier: &str, known: &FileSet) -> (r: Resolution)
    ensures
        r@ == resolution_of(importer@, specifier@, known@),
{
    let s = chars_of(specifier);
    if s.len() == 0 {
        return Resolution::Unresolved(EMPTY_PATH);
    }
    if s[0] != '.' {
        let drive = s.len() >= 2 && s[1] == ':' && (('a' <= s[0] && s[0] <= 'z') || ('A' <= s[0]
            && s[0] <= 'Z'));
        proof {
            lemma_short_prefix(s@, '/', '/');
            lemma_short_prefix(s@, '\\', '/');
            lemma_short_prefix(s@, '#', '/');
            lemma_short_prefix(s@, '@', '/');
            lemma_short_prefix(s@, '~', '/');
        }
        if s[0] == '/' || s[0] == '\\' || drive || s[0] == '#' || (s.len() >= 2 && s[0] == '@'
            && s[1] == '/') || (s.len() >= 2 && s[0] == '~' && s[1] == '/') {
            return Resolution::Unresolved(ALIAS);
        }
        return Resolution::External;
    }
    let dot = s.len() == 1;
    let dotdot = s.len() == 2 && s[1] == '.';
    proof {
        if dot {
            assert(s@ =~= seq!['.']);
        }
        if dotdot {
            assert(s@ =~= seq!['.', '.']);
        }
        if s@ == seq!['.'] {
            assert(s@.len() == 1);
        }
        if s@ == seq!['.', '.'] {
            assert(s@.len() == 2 && s@[1] == '.');
        }
    }
    let p_dot_slash = vec!['.', '/'];
    let p_dotdot_slash = vec!['.', '.', '/'];
    assert(p_dot_slash@ =~= seq!['.', '/']);
    assert(p_dotdot_slash@ =~= seq!['.', '.', '/']);
    if !dot && !dotdot && !vec_has_prefix(&s, &p_dot_slash) && !vec_has_prefix(&s, &p_dotdot_slash) {
        return Resolution::Unresolved(FORMAT);
    }
    if vec_contains(&s, '?') || vec_contains(&s, '#') || vec_contains(&s, '\0') || vec_contains(
        &s,
        '\\',
    ) {
        return Resolution::Unresolved(QUERY);
    }
    let importer_chars = chars_of(importer);
    let directory = vec_before_last(&importer_chars, '/');
    let components = drop_empty(vec_split(&directory, '/'));
    let parts = vec_split(&s, '/');
    let walked_opt = walk_parts(components, &parts);
    let walked = match walked_opt {
        Some(w) => w,
        None => return Resolution::Unresolved(OUTSIDE),
    };
    let base = vec_join(&walked, '/');
    let x_slash = vec!['/'];
    let x_slash_dot = vec!['/', '.'];
    let x_slash_dotdot = vec!['/', '.', '.'];
    assert(x_slash@ =~= seq!['/']);
    assert(x_slash_dot@ =~= seq!['/', '.']);
    assert(x_slash_dotdot@ =~= seq!['/', '.', '.']);
    let directory_only = vec_has_suffix(&s, &x_slash) || dot || dotdot || vec_has_suffix(&s, &x_slash_dot)
        || vec_has_suffix(&s, &x_slash_dotdot);
    let list = candidate_list(&base, directory_only);
    let mut i: usize = 0;
    assert(views(list@).subrange(0, list.len() as int) =~= views(list@));
    proof {
        assert(views(walked@) == walk(views(components@), views(parts@))->0);
        assert(s@ == specifier@);
        assert(directory_only == is_directory_only(s@));
        assert(base@ == join_with(views(walked@), '/'));
        assert(views(components@) == nonempty(split_on(before_last(importer@, '/'), '/')));
        assert(views(parts@) == split_on(specifier@, '/'));
        assert(is_relative_form(specifier@));
        assert(!(specifier@.contains('?') || specifier@.contains('#') || specifier@.contains('\0') || specifier@.contains('\\')));
    }
    assert(resolution_of(importer@, specifier@, known@) == match first_known(views(list@), known@) {
        Some(found) => ResolutionView::Internal(found),
        None => ResolutionView::Unresolved(NOT_FOUND@),
    });
    while i < list.len()
        invariant
            i <= list.len(),
            resolution_of(importer@, specifier@, known@) == match first_known(views(list@), known@) {
                Some(found) => ResolutionView::Internal(found),
                None => ResolutionView::Unresolved(NOT_FOUND@),
            },
            first_known(views(list@), known@) == first_known(
                views(list@).subrange(i as int, list.len() as int),
                known@,
            ),
        decreases list.len() - i,
    {
        let candidate = string_of(&list[i]);
        let ghost rest = views(list@).subrange(i as int, list.len() as int);
        assert(rest[0] == list@[i as int]@);
        assert(rest.drop_first() =~= views(list@).subrange(i + 1, list.len() as int));
        if known.contains(candidate.as_str()) {
            return Resolution::Internal(candidate);
        }
        i += 1;
    }
    Resolution::Unresolved(NOT_FOUND)
}

/// The path a relative specifier names from the importer's directory, when it
/// stays inside the project.
pub open spec fn walked_path(importer: Seq<char>, s: Seq<char>) -> Option<Seq<char>> {
    match walk(nonempty(split_on(before_last(importer, '/'), '/')), split_on(s, '/')) {
        Some(parts) => Some(join_with(parts, '/')),
        None => None,
    }
}

/// Law: exact files take precedence. A relative import that names a file (not
/// a directory) whose walked path is a scanned file resolves to that file.
pub proof fn law_exact_file_first(importer: Seq<char>, s: Seq<char>, known: Set<Seq<char>>, p: Seq<char>)
    requires
        is_relative_form(s),
        !s.contains('?') && !s.contains('#') && !s.contains('\0') && !s.contains('\\'),
        !is_directory_only(s),
        walked_path(importer, s) == Some(p),
        known.contains(p),
    ensures
        resolution_of(importer, s, known) == ResolutionView::Internal(p),
{
    assert(s.len() > 0 && s[0] == '.') by {
        if s == seq!['.'] || s == seq!['.', '.'] {
        } else if has_prefix(s, seq!['.', '/']) {
            assert(s[0] == seq!['.', '/'][0]);
        } else {
            assert(s[0] == seq!['.', '.', '/'][0]);
        }
    }
    let c = candidates(p, false);
    assert(c[0] == p);
}

/// A candidate found among the scanned files is one of them.
proof fn lemma_first_known(c: Seq<Seq<char>>, known: Set<Seq<char>>)
    ensures
        first_known(c, known) matches Some(f) ==> known.contains(f) && c.contains(f),
    decreases c.len(),
{
    if c.len() > 0 && !known.contains(c[0]) {
        lemma_first_known(c.drop_first(), known);
        match first_known(c.drop_first(), known) {
            Some(f) => {
                let k = choose|k: int| 0 <= k < c.drop_first().len() && c.drop_first()[k] == f;
                assert(c[k + 1] == f);
            },
            None => {},
        }
    } else if c.len() > 0 {
        assert(c[0] == c[0]);
    }
}

/// Law: an import resolves only to a scanned file.
pub proof fn law_resolves_to_known_files(importer: Seq<char>, s: Seq<char>, known: Set<Seq<char>>)
    ensures
        resolution_of(importer, s, known) matches ResolutionView::Internal(f) ==> known.contains(f),
{
    if s.len() > 0 && s[0] == '.' && is_relative_form(s) && !(s.contains('?') || s.contains('#') || s.contains('\0')
        || s.contains('\\')) {
        match walk(nonempty(split_on(before_last(importer, '/'), '/')), split_on(s, '/')) {
            Some(parts) => {
                lemma_first_known(candidates(join_with(parts, '/'), is_directory_only(s)), known);
            },
            None => {},
        }
    }
}

/// The first scanned candidate of a concatenation.
proof fn lemma_first_known_concat(a: Seq<Seq<char>>, b: Seq<Seq<char>>, known: Set<Seq<char>>)
    ensures
        first_known(a + b, known) == match first_known(a, known) {
            Some(x) => Some(x),
            None => first_known(b, known),
        },
    decreases a.len(),
{
    if a.len() == 0 {
        assert(a + b =~= b);
    } else {
        assert((a + b)[0] == a[0]);
        assert((a + b).drop_first() =~= a.drop_first() + b);
        lemma_first_known_concat(a.drop_first(), b, known);
    }
}

/// The first scanned candidate is the first one listed among the scanned files.
proof fn lemma_first_known_at(a: Seq<Seq<char>>, k: int, known: Set<Seq<char>>)
    requires
        0 <= k < a.len(),
        known.contains(a[k]),
        forall|j: int| 0 <= j < k ==> !known.contains(#[trigger] a[j]),
    ensures
        first_known(a, known) == Some(a[k]),
    decreases k,
{
    if k > 0 {
        assert(!known.contains(a[0]));
        assert forall|j: int| 0 <= j < k - 1 implies !known.contains(#[trigger] a.drop_first()[j]) by {
            assert(a.drop_first()[j] == a[j + 1]);
        }
        lemma_first_known_at(a.drop_first(), k - 1, known);
    }
}

/// No candidate is scanned: nothing is found.
proof fn lemma_first_known_none(a: Seq<Seq<char>>, known: Set<Seq<char>>)
    requires
        forall|j: int| 0 <= j < a.len() ==> !known.contains(#[trigger] a[j]),
    ensures
        first_known(a, known) is None,
    decreases a.len(),
{
    if a.len() > 0 {
        assert(!known.contains(a[0]));
        assert forall|j: int| 0 <= j < a.len() - 1 implies !known.contains(#[trigger] a.drop_first()[j]) by {
            assert(a.drop_first()[j] == a[j + 1]);
        }
        lemma_first_known_none(a.drop_first(), known);
    }
}

/// Law: a bare module name, not written with an alias prefix, is external.
pub proof fn law_bare_names_are_external(importer: Seq<char>, s: Seq<char>, known: Set<Seq<char>>)
    requires
        s.len() > 0,
        s[0] != '.',
        !is_alias(s),
    ensures
        resolution_of(importer, s, known) == ResolutionView::External,
{
}

/// Law: a `.js` import whose file is not scanned falls back to the TypeScript
/// source of the same name.
pub proof fn law_js_falls_back_to_ts(importer: Seq<char>, s: Seq<char>, known: Set<Seq<char>>, p: Seq<char>)
    requires
        is_relative_form(s),
        !s.contains('?') && !s.contains('#') && !s.contains('\0') && !s.contains('\\'),
        !is_directory_only(s),
        walked_path(importer, s) == Some(p),
        has_suffix(p, seq!['.', 'j', 's']),
        !known.contains(p),
        known.contains(p.subrange(0, p.len() - 3) + seq!['.', 't', 's']),
    ensures
        resolution_of(importer, s, known) == ResolutionView::Internal(p.subrange(0, p.len() - 3) + seq!['.', 't', 's']),
{
    assert(s[0] == '.') by {
        if has_prefix(s, seq!['.', '/']) {
            assert(s[0] == seq!['.', '/'][0]);
        } else if has_prefix(s, seq!['.', '.', '/']) {
            assert(s[0] == seq!['.', '.', '/'][0]);
        }
    }
    let c = candidates(p, false);
    assert(c[0] == p);
    assert(c[1] == p.subrange(0, p.len() - 3) + seq!['.', 't', 's']);
    lemma_first_known_at(c, 1, known);
}

/// The name with the `k`-th source extension.
pub open spec fn with_extension(p: Seq<char>, k: int) -> Seq<char> {
    p + seq!['.'] + js_extensions()[k]
}

/// Law: an import without a file extension resolves to the first scanned file
/// among its name with each source extension, in the order of `js_extensions`.
pub proof fn law_extensionless_imports(importer: Seq<char>, s: Seq<char>, known: Set<Seq<char>>, p: Seq<char>, k: int)
    requires
        is_relative_form(s),
        !s.contains('?') && !s.contains('#') && !s.contains('\0') && !s.contains('\\'),
        !is_directory_only(s),
        walked_path(importer, s) == Some(p),
        runtime_fallbacks(p).len() == 0,
        !known.contains(p),
        0 <= k < js_extensions().len(),
        known.contains(with_extension(p, k)),
        forall|j: int| 0 <= j < k ==> !known.contains(#[trigger] with_extension(p, j)),
    ensures
        resolution_of(importer, s, known) == ResolutionView::Internal(with_extension(p, k)),
{
    assert(s[0] == '.') by {
        if has_prefix(s, seq!['.', '/']) {
            assert(s[0] == seq!['.', '/'][0]);
        } else if has_prefix(s, seq!['.', '.', '/']) {
            assert(s[0] == seq!['.', '.', '/'][0]);
        }
    }
    let ext = js_extensions().map_values(|e: Seq<char>| p + seq!['.'] + e);
    let idx = js_extensions().map_values(|e: Seq<char>| index_path(p, e));
    let c = candidates(p, false);
    assert(c =~= seq![p] + (runtime_fallbacks(p) + ext + idx));
    assert(runtime_fallbacks(p) + ext + idx =~= ext + idx);
    assert forall|j: int| 0 <= j < k implies !known.contains(#[trigger] ext[j]) by {
        assert(ext[j] == with_extension(p, j));
    }
    assert(ext[k] == with_extension(p, k));
    lemma_first_known_at(ext, k, known);
    lemma_first_known_concat(ext, idx, known);
    lemma_first_known_concat(seq![p], ext + idx, known);
    lemma_first_known_none(seq![p], known);
}

/// Law: an import of a directory resolves to the first scanned `index` file in
/// it, in the order of `js_extensions`.
pub proof fn law_directory_index(importer: Seq<char>, s: Seq<char>, known: Set<Seq<char>>, p: Seq<char>, k: int)
    requires
        is_relative_form(s),
        !s.contains('?') && !s.contains('#') && !s.contains('\0') && !s.contains('\\'),
        is_directory_only(s),
        walked_path(importer, s) == Some(p),
        0 <= k < js_extensions().len(),
        known.contains(index_path(p, js_extensions()[k])),
        forall|j: int| 0 <= j < k ==> !known.contains(#[trigger] index_path(p, js_extensions()[j])),
    ensures
        resolution_of(importer, s, known) == ResolutionView::Internal(index_path(p, js_extensions()[k])),
        p.len() > 0 ==> index_path(p, js_extensions()[k]) == p + seq!['/', 'i', 'n', 'd', 'e', 'x', '.'] + js_extensions()[k],
{
    assert(s[0] == '.') by {
        if has_prefix(s, seq!['.', '/']) {
            assert(s[0] == seq!['.', '/'][0]);
        } else if has_prefix(s, seq!['.', '.', '/']) {
            assert(s[0] == seq!['.', '.', '/'][0]);
        }
    }
    let idx = js_extensions().map_values(|e: Seq<char>| index_path(p, e));
    assert(candidates(p, true) =~= idx);
    assert forall|j: int| 0 <= j < k implies !known.contains(#[trigger] idx[j]) by {
        assert(idx[j] == index_path(p, js_extensions()[j]));
    }
    lemma_first_known_at(idx, k, known);
}

/// Law: the source extensions are tried in this order: `ts`, `tsx`, `js`,
/// `jsx`, `mjs`, `cjs`, `mts`, `cts`.
pub proof fn law_extension_order()
    ensures
        js_extensions() == seq![
            seq!['t', 's'],
            seq!['t', 's', 'x'],
            seq!['j', 's'],
            seq!['j', 's', 'x'],
            seq!['m', 'j', 's'],
            seq!['c', 'j', 's'],
            seq!['m', 't', 's'],
            seq!['c', 't', 's'],
        ],
{
}

/// Law: runtime suffixes fall back to the TypeScript sources that compile to
/// them: `.js` to `.ts` then `.tsx`, `.jsx` to `.tsx`, `.mjs` to `.mts`, `.cjs`
/// to `.cts`; other names have no fallback.
pub proof fn law_runtime_fallbacks(p: Seq<char>)
    ensures
        has_suffix(p, seq!['.', 'j', 's']) ==> runtime_fallbacks(p) == seq![
            p.subrange(0, p.len() - 3) + seq!['.', 't', 's'],
            p.subrange(0, p.len() - 3) + seq!['.', 't', 's', 'x'],
        ],
        has_suffix(p, seq!['.', 'j', 's', 'x']) ==> runtime_fallbacks(p) == seq![p.subrange(0, p.len() - 4) + seq!['.', 't', 's', 'x']],
        has_suffix(p, seq!['.', 'm', 'j', 's']) ==> runtime_fallbacks(p) == seq![p.subrange(0, p.len() - 4) + seq!['.', 'm', 't', 's']],
        has_suffix(p, seq!['.', 'c', 'j', 's']) ==> runtime_fallbacks(p) == seq![p.subrange(0, p.len() - 4) + seq!['.', 'c', 't', 's']],
        !has_suffix(p, seq!['.', 'j', 's']) && !has_suffix(p, seq!['.', 'j', 's', 'x']) && !has_suffix(p, seq!['.', 'm', 'j', 's'])
            && !has_suffix(p, seq!['.', 'c', 'j', 's']) ==> runtime_fallbacks(p).len() == 0,
{
    let n = p.len() as int;
    if has_suffix(p, seq!['.', 'j', 's']) {
        assert(p[n - 1] == 's');
        assert(p[n - 2] == 'j');
        if has_suffix(p, seq!['.', 'j', 's', 'x']) {
            assert(p[n - 1] == 'x');
        }
        if has_suffix(p, seq!['.', 'm', 'j', 's']) {
            assert(p.subrange(n - 4, n)[1] == 'm');
            assert(p.subrange(n - 3, n)[0] == '.');
            assert(p[n - 3] == 'm');
            assert(p[n - 3] == '.');
        }
        if has_suffix(p, seq!['.', 'c', 'j', 's']) {
            assert(p.subrange(n - 4, n)[1] == 'c');
            assert(p.subrange(n - 3, n)[0] == '.');
            assert(p[n - 3] == 'c');
            assert(p[n - 3] == '.');
        }
        assert(runtime_fallbacks(p) =~= seq![
            p.subrange(0, p.len() - 3) + seq!['.', 't', 's'],
            p.subrange(0, p.len() - 3) + seq!['.', 't', 's', 'x'],
        ]);
    } else if has_suffix(p, seq!['.', 'j', 's', 'x']) {
        assert(p.subrange(n - 1, n)[0] == 'x');
        if has_suffix(p, seq!['.', 'm', 'j', 's']) {
            assert(p.subrange(n - 4, n)[3] == 's');
        }
        if has_suffix(p, seq!['.', 'c', 'j', 's']) {
            assert(p.subrange(n - 4, n)[3] == 's');
        }
        assert(runtime_fallbacks(p) =~= seq![p.subrange(0, p.len() - 4) + seq!['.', 't', 's', 'x']]);
    } else if has_suffix(p, seq!['.', 'm', 'j', 's']) {
        assert(p.subrange(n - 3, n) =~= p.subrange(n - 4, n).subrange(1, 4));
        if has_suffix(p, seq!['.', 'c', 'j', 's']) {
            assert(p.subrange(n - 4, n)[1] == 'c');
        }
        assert(runtime_fallbacks(p) =~= seq![p.subrange(0, p.len() - 4) + seq!['.', 'm', 't', 's']]);
    } else if has_suffix(p, seq!['.', 'c', 'j', 's']) {
        assert(p.subrange(n - 3, n) =~= p.subrange(n - 4, n).subrange(1, 4));
        assert(runtime_fallbacks(p) =~= seq![p.subrange(0, p.len() - 4) + seq!['.', 'c', 't', 's']]);
    } else {
        assert(runtime_fallbacks(p) =~= Seq::<Seq<char>>::empty());
    }
}

/// Law: when the named file is not scanned, its runtime-suffix fallbacks are
/// tried next, in order, before any other candidate.
pub proof fn law_fallbacks_follow_the_exact_file(importer: Seq<char>, s: Seq<char>, known: Set<Seq<char>>, p: Seq<char>, k: int)
    requires
        is_relative_form(s),
        !s.contains('?') && !s.contains('#') && !s.contains('\0') && !s.contains('\\'),
        !is_directory_only(s),
        walked_path(importer, s) == Some(p),
        !known.contains(p),
        0 <= k < runtime_fallbacks(p).len(),
        known.contains(runtime_fallbacks(p)[k]),
        forall|j: int| 0 <= j < k ==> !known.contains(#[trigger] runtime_fallbacks(p)[j]),
    ensures
        resolution_of(importer, s, known) == ResolutionView::Internal(runtime_fallbacks(p)[k]),
{
    assert(s[0] == '.') by {
        if has_prefix(s, seq!['.', '/']) {
            assert(s[0] == seq!['.', '/'][0]);
        } else if has_prefix(s, seq!['.', '.', '/']) {
            assert(s[0] == seq!['.', '.', '/'][0]);
        }
    }
    let f = runtime_fallbacks(p);
    let c = candidates(p, false);
    assert(c[k + 1] == f[k]);
    assert forall|j: int| 0 <= j < k + 1 implies !known.contains(#[trigger] c[j]) by {
        if j > 0 {
            assert(c[j] == f[j - 1]);
        }
    }
    lemma_first_known_at(c, k + 1, known);
}

} // verus!
