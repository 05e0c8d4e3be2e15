//! C and C++ helpers: which files are sources, how a compile command splits
//! into words, and how a path named by a compilation database maps into the
//! project. All of it is lexical; no header or directory is opened.
use vstd::prelude::*;
use crate::analysis::{is_white, white_space};
use crate::json::{json_value, json_view, json_views, lemma_json_views, lemma_member_views, member_views, parsed_json, Json, JsonView};
use crate::model::FileSet;
use crate::order::texts;
use crate::scanner::{ascii_lower, listed, slashed, slash_path, to_ascii_lower};
use crate::text_util::{
    after_last, chars_of, has_prefix, join_with, last_index, split_on, string_of, vec_after_last,
    vec_contains, vec_has_prefix, vec_join, vec_last_index, vec_slice, vec_split, views,
};

verus! {

/// The extensions of C and C++ sources and headers, in lower case.
pub open spec fn c_extensions() -> Seq<Seq<char>> {
    seq![
        seq!['c'],
        seq!['h'],
        seq!['c', 'p', 'p'],
        seq!['c', 'c'],
        seq!['c', 'x', 'x'],
        seq!['h', 'p', 'p'],
        seq!['h', 'h'],
        seq!['h', 'x', 'x'],
        seq!['i', 'n', 'l'],
        seq!['i', 'p', 'p'],
    ]
}

fn c_extensions_list() -> (r: Vec<Vec<char>>)
    ensures
        views(r@) == c_extensions(),
{
    let r = vec![
        vec!['c'],
        vec!['h'],
        vec!['c', 'p', 'p'],
        vec!['c', 'c'],
        vec!['c', 'x', 'x'],
        vec!['h', 'p', 'p'],
        vec!['h', 'h'],
        vec!['h', 'x', 'x'],
        vec!['i', 'n', 'l'],
        vec!['i', 'p', 'p'],
    ];
    assert(r@[0]@ =~= seq!['c']);
    assert(r@[1]@ =~= seq!['h']);
    assert(r@[2]@ =~= seq!['c', 'p', 'p']);
    assert(r@[3]@ =~= seq!['c', 'c']);
    assert(r@[4]@ =~= seq!['c', 'x', 'x']);
    assert(r@[5]@ =~= seq!['h', 'p', 'p']);
    assert(r@[6]@ =~= seq!['h', 'h']);
    assert(r@[7]@ =~= seq!['h', 'x', 'x']);
    assert(r@[8]@ =~= seq!['i', 'n', 'l']);
    assert(r@[9]@ =~= seq!['i', 'p', 'p']);
    assert(views(r@) =~= c_extensions());
    r
}

/// A C-family file: one whose extension after the last `.`, in ASCII lower
/// case, is a C or C++ source or header extension.
pub open spec fn c_source(id: Seq<char>) -> bool {
    &&& last_index(id, '.') is Some
    &&& c_extensions().contains(ascii_lower(after_last(id, '.')))
}

/// Whether `id` names a C or C++ source or header.
pub fn is_source(id: &str) -> (r: bool)
    ensures
        r == c_source(id@),
{
    let cs = chars_of(id);
    if vec_last_index(&cs, '.').is_none() {
        return false;
    }
    let extension = string_of(&vec_after_last(&cs, '.'));
    let lower = to_ascii_lower(extension.as_str());
    listed(&chars_of(lower.as_str()), &c_extensions_list())
}

/// A character that makes a command unsafe to take apart: expansions, command
/// substitution, line breaks and NUL.
pub open spec fn forbidden(c: char) -> bool {
    c == '\0' || c == '$' || c == '`' || c == '\n' || c == '\r'
}

/// A shell operator outside quotes: a command holding one is not a plain
/// compiler invocation.
pub open spec fn operator(c: char) -> bool {
    c == ';' || c == '|' || c == '&' || c == '<' || c == '>'
}

/// The words of `s` from position `i` on, given the words already finished,
/// the word being read, the open quote and whether a word has begun; `None`
/// when the command is refused.
pub open spec fn words_from(
    s: Seq<char>,
    i: int,
    done: Seq<Seq<char>>,
    word: Seq<char>,
    quote: Option<char>,
    started: bool,
) -> Option<Seq<Seq<char>>>
    decreases s.len() - i,
{
    if i >= s.len() {
        if quote is Some {
            None
        } else if started {
            Some(done.push(word))
        } else {
            Some(done)
        }
    } else {
        let c = s[i];
        if forbidden(c) {
            None
        } else {
            match quote {
                Some(d) => if c == d {
                    words_from(s, i + 1, done, word, None, started)
                } else if c == '\\' && d == '"' && i + 1 < s.len() && s[i + 1] == '"' {
                    words_from(s, i + 2, done, word.push('"'), quote, started)
                } else {
                    words_from(s, i + 1, done, word.push(c), quote, started)
                },
                None => if c == '\'' || c == '"' {
                    words_from(s, i + 1, done, word, Some(c), true)
                } else if operator(c) {
                    None
                } else if c == '\\' && i + 1 < s.len() && (white_space(s[i + 1]) || s[i + 1]
                    == '\'' || s[i + 1] == '"') {
                    words_from(s, i + 2, done, word.push(s[i + 1]), None, true)
                } else if white_space(c) {
                    if started {
                        words_from(s, i + 1, done.push(word), Seq::empty(), None, false)
                    } else {
                        words_from(s, i + 1, done, word, None, false)
                    }
                } else {
                    words_from(s, i + 1, done, word.push(c), None, true)
                },
            }
        }
    }
}

/// The words of a compile command as a POSIX shell would split it, single and
/// double quotes and backslash escapes of white space and quotes included; `None`
/// for a command with an unclosed quote, an operator, an expansion or a line
/// break.
pub open spec fn command_words(s: Seq<char>) -> Option<Seq<Seq<char>>> {
    words_from(s, 0, Seq::empty(), Seq::empty(), None, false)
}

/// Splits a compile command into its words, refusing anything a plain
/// compiler invocation would not hold.
pub fn split_command(command: &str) -> (r: Option<Vec<String>>)
    ensures
        match r {
            Some(v) => command_words(command@) == Some(texts(v@)),
            None => command_words(command@) is None,
        },
{
    let cs = chars_of(command);
    let mut done: Vec<String> = Vec::new();
    let mut word: Vec<char> = Vec::new();
    let mut quote: Option<char> = None;
    let mut started = false;
    let mut i: usize = 0;
    assert(texts(done@) =~= Seq::<Seq<char>>::empty());
    assert(word@ =~= Seq::<char>::empty());
    while i < cs.len()
        invariant
            i <= cs.len(),
            cs@ == command@,
            words_from(cs@, i as int, texts(done@), word@, quote, started) == command_words(
                command@,
            ),
        decreases cs.len() - i,
    {
        let c = cs[i];
        if c == '\0' || c == '$' || c == '`' || c == '\n' || c == '\r' {
            return None;
        }
        match quote {
            Some(d) => {
                if c == d {
                    quote = None;
                    i += 1;
                } else if c == '\\' && d == '"' && i + 1 < cs.len() && cs[i + 1] == '"' {
                    word.push('"');
                    i += 2;
                } else {
                    word.push(c);
                    i += 1;
                }
            },
            None => {
                if c == '\'' || c == '"' {
                    quote = Some(c);
                    started = true;
                    i += 1;
                } else if c == ';' || c == '|' || c == '&' || c == '<' || c == '>' {
                    return None;
                } else if c == '\\' && i + 1 < cs.len() && (is_white(cs[i + 1]) || cs[i + 1]
                    == '\'' || cs[i + 1] == '"') {
                    word.push(cs[i + 1]);
                    started = true;
                    i += 2;
                } else if is_white(c) {
                    if started {
                        let finished = string_of(&word);
                        let ghost before = texts(done@);
                        done.push(finished);
                        assert(texts(done@) =~= before.push(finished@));
                        word = Vec::new();
                        started = false;
                    }
                    i += 1;
                } else {
                    word.push(c);
                    started = true;
                    i += 1;
                }
            },
        }
    }
    if quote.is_some() {
        return None;
    }
    if started {
        let finished = string_of(&word);
        let ghost before = texts(done@);
        done.push(finished);
        assert(texts(done@) =~= before.push(finished@));
    }
    Some(done)
}

/// `s` without a leading `//?/` (the extended-length prefix of Windows paths).
pub open spec fn without_unc(s: Seq<char>) -> Seq<char> {
    if has_prefix(s, seq!['/', '/', '?', '/']) {
        s.subrange(4, s.len() as int)
    } else {
        s
    }
}

fn strip_unc(v: Vec<char>) -> (r: Vec<char>)
    ensures
        r@ == without_unc(v@),
{
    let prefix = vec!['/', '/', '?', '/'];
    assert(prefix@ =~= seq!['/', '/', '?', '/']);
    if vec_has_prefix(&v, &prefix) {
        vec_slice(&v, 4, v.len())
    } else {
        v
    }
}

/// A path that starts with a drive letter (`C:`): in bytes, the second byte is
/// a colon, so the first character is ASCII.
pub open spec fn drive_form(s: Seq<char>) -> bool {
    s.len() >= 2 && (s[0] as u32) < 128 && s[1] == ':'
}

/// One component of an absolute path: `..` may neither leave the top nor
/// climb above a drive.
pub open spec fn climb_step(parts: Seq<Seq<char>>, segment: Seq<char>) -> Option<
    Seq<Seq<char>>,
> {
    if segment.len() == 0 || segment == seq!['.'] {
        Some(parts)
    } else if segment == seq!['.', '.'] {
        if parts.len() == 0 || (parts.last().len() > 0 && parts.last().last() == ':') {
            None
        } else {
            Some(parts.drop_last())
        }
    } else {
        Some(parts.push(segment))
    }
}

/// The components of an absolute path after `.` and `..` are applied.
pub open spec fn climb(segments: Seq<Seq<char>>) -> Option<Seq<Seq<char>>>
    decreases segments.len(),
{
    if segments.len() == 0 {
        Some(Seq::empty())
    } else {
        match climb(segments.drop_last()) {
            None => None,
            Some(p) => climb_step(p, segments.last()),
        }
    }
}

proof fn lemma_climb_stuck(segments: Seq<Seq<char>>, i: int, j: int)
    requires
        0 <= i <= j <= segments.len(),
        climb(segments.take(i)) is None,
    ensures
        climb(segments.take(j)) is None,
    decreases j - i,
{
    if i < j {
        lemma_climb_stuck(segments, i, j - 1);
        assert(segments.take(j).drop_last() =~= segments.take(j - 1));
    }
}

/// `s` without its leading slashes (`trim_start_matches('/')`).
pub open spec fn trim_slashes(s: Seq<char>) -> Seq<char>
    decreases s.len(),
{
    if s.len() > 0 && s[0] == '/' {
        trim_slashes(s.subrange(1, s.len() as int))
    } else {
        s
    }
}

/// The path that a compilation database names by `value` (relative to
/// `directory` under the project `root`, or absolute), as a path relative to
/// the root; `None` when it is empty, holds NUL, is a drive-relative path, climbs
/// out, or lies outside the root.
pub open spec fn project_relative(root: Seq<char>, directory: Seq<char>, value: Seq<char>) -> Option<
    Seq<char>,
> {
    let top = without_unc(slashed(root));
    let v = slashed(value);
    if value.len() == 0 || value.contains('\0') {
        None
    } else if drive_form(v) && !(v.len() >= 3 && v[2] == '/') {
        None
    } else {
        let absolute = without_unc(
            if (v.len() >= 1 && v[0] == '/') || drive_form(v) {
                v
            } else {
                top + seq!['/'] + directory + seq!['/'] + v
            },
        );
        match climb(split_on(absolute, '/')) {
            None => None,
            Some(parts) => settle(top, parts),
        }
    }
}

/// The components of an absolute path as a path relative to `top`, or `None`
/// when they lie outside it.
pub open spec fn settle(top: Seq<char>, parts: Seq<Seq<char>>) -> Option<Seq<char>> {
    let normalized = if top.len() >= 1 && top[0] == '/' {
        seq!['/'] + join_with(parts, '/')
    } else {
        join_with(parts, '/')
    };
    if has_prefix(normalized, top + seq!['/']) || normalized == top {
        Some(trim_slashes(normalized.subrange(top.len() as int, normalized.len() as int)))
    } else {
        None
    }
}

fn append(v: &mut Vec<char>, w: &Vec<char>)
    ensures
        final(v)@ == old(v)@ + w@,
{
    let mut i: usize = 0;
    let ghost start = v@;
    while i < w.len()
        invariant
            i <= w.len(),
            v@ == start + w@.take(i as int),
        decreases w.len() - i,
    {
        v.push(w[i]);
        i += 1;
        assert(v@ =~= start + w@.take(i as int));
    }
    assert(w@.take(w.len() as int) =~= w@);
}

fn same(a: &Vec<char>, b: &Vec<char>) -> (r: bool)
    ensures
        r == (a@ == b@),
{
    if a.len() != b.len() {
        return false;
    }
    let mut i: usize = 0;
    while i < a.len()
        invariant
            i <= a.len(),
            a.len() == b.len(),
            forall|k: int| 0 <= k < i ==> a@[k] == b@[k],
        decreases a.len() - i,
    {
        if a[i] != b[i] {
            assert(a@[i as int] != b@[i as int]);
            return false;
        }
        i += 1;
    }
    assert(a@ =~= b@);
    true
}

fn trim_leading(v: &Vec<char>, from: usize) -> (r: Vec<char>)
    requires
        from <= v.len(),
    ensures
        r@ == trim_slashes(v@.subrange(from as int, v.len() as int)),
{
    let mut i = from;
    while i < v.len() && v[i] == '/'
        invariant
            from <= i <= v.len(),
            trim_slashes(v@.subrange(i as int, v.len() as int)) == trim_slashes(
                v@.subrange(from as int, v.len() as int),
            ),
        decreases v.len() - i,
    {
        assert(v@.subrange(i as int, v.len() as int).subrange(1, v.len() - i) =~= v@.subrange(
            i + 1,
            v.len() as int,
        ));
        i += 1;
    }
    vec_slice(v, i, v.len())
}

/// Maps a path named by a compilation database into the project: relative to
/// the root when it lies inside it, `None` otherwise.
pub fn project_path(root: &str, directory: &str, value: &str) -> (r: Option<String>)
    ensures
        match r {
            Some(s) => project_relative(root@, directory@, value@) == Some(s@),
            None => project_relative(root@, directory@, value@) is None,
        },
{
    let raw = chars_of(value);
    if raw.len() == 0 || vec_contains(&raw, '\0') {
        return None;
    }
    let top = strip_unc(chars_of(slash_path(root).as_str()));
    let v = chars_of(slash_path(value).as_str());
    let ghost spec_top = without_unc(slashed(root@));
    assert(top@ == spec_top);
    assert(v@ == slashed(value@));
    let drive = v.len() >= 2 && (v[0] as u32) < 128 && v[1] == ':';
    assert(drive == drive_form(v@));
    if drive && !(v.len() >= 3 && v[2] == '/') {
        return None;
    }
    let whole = if (v.len() >= 1 && v[0] == '/') || drive {
        v
    } else {
        let mut w = top.clone();
        w.push('/');
        append(&mut w, &chars_of(directory));
        w.push('/');
        append(&mut w, &v);
        assert(w@ =~= spec_top + seq!['/'] + directory@ + seq!['/'] + v@);
        w
    };
    let absolute = strip_unc(whole);
    assert(absolute@ == without_unc(
        if (v@.len() >= 1 && v@[0] == '/') || drive_form(v@) {
            v@
        } else {
            spec_top + seq!['/'] + directory@ + seq!['/'] + v@
        },
    ));
    let segments = vec_split(&absolute, '/');
    let mut parts: Vec<Vec<char>> = Vec::new();
    let mut i: usize = 0;
    proof {
        assert(views(segments@).take(0) =~= Seq::<Seq<char>>::empty());
        assert(views(parts@) =~= Seq::<Seq<char>>::empty());
    }
    while i < segments.len()
        invariant
            i <= segments.len(),
            views(segments@) == split_on(absolute@, '/'),
            climb(views(segments@).take(i as int)) == Some(views(parts@)),
            project_relative(root@, directory@, value@) == match climb(split_on(absolute@, '/')) {
                None => None,
                Some(p) => settle(top@, p),
            },
        decreases segments.len() - i,
    {
        proof {
            assert(views(segments@).take(i + 1).drop_last() =~= views(segments@).take(i as int));
            assert(views(segments@).take(i + 1).last() == segments@[i as int]@);
        }
        let segment = &segments[i];
        let dot = segment.len() == 1 && segment[0] == '.';
        let dot_dot = segment.len() == 2 && segment[0] == '.' && segment[1] == '.';
        proof {
            if segment@ == seq!['.'] {
                assert(segment@[0] == '.');
            }
            if segment@ == seq!['.', '.'] {
                assert(segment@[0] == '.' && segment@[1] == '.');
            }
            if dot {
                assert(segment@ =~= seq!['.']);
            }
            if dot_dot {
                assert(segment@ =~= seq!['.', '.']);
            }
        }
        if segment.len() == 0 || dot {
        } else if dot_dot {
            let n = parts.len();
            if n == 0 {
                proof {
                    lemma_climb_stuck(views(segments@), i + 1, segments.len() as int);
                    assert(views(segments@).take(segments.len() as int) =~= views(segments@));
                }
                return None;
            }
            if parts[n - 1].len() > 0 && parts[n - 1][parts[n - 1].len() - 1] == ':' {
                proof {
                    assert(views(parts@).last() == parts@[n - 1]@);
                    lemma_climb_stuck(views(segments@), i + 1, segments.len() as int);
                    assert(views(segments@).take(segments.len() as int) =~= views(segments@));
                }
                return None;
            }
            let ghost before = views(parts@);
            assert(before.last() == parts@[n - 1]@);
            parts.pop();
            assert(views(parts@) =~= before.drop_last());
        } else {
            let ghost before = views(parts@);
            parts.push(segment.clone());
            assert(views(parts@) =~= before.push(segment@));
        }
        i += 1;
    }
    assert(views(segments@).take(segments.len() as int) =~= views(segments@));
    let joined = vec_join(&parts, '/');
    let normalized = if top.len() >= 1 && top[0] == '/' {
        let mut n = vec!['/'];
        append(&mut n, &joined);
        assert(n@ =~= seq!['/'] + joined@);
        n
    } else {
        joined
    };
    let mut boundary = top.clone();
    boundary.push('/');
    assert(boundary@ =~= top@ + seq!['/']);
    if vec_has_prefix(&normalized, &boundary) || same(&normalized, &top) {
        Some(string_of(&trim_leading(&normalized, top.len())))
    } else {
        None
    }
}

/// The header search directories of one compile command: those given by
/// `-iquote`, by `-I` (or `/I`) and by `-isystem`, each as a project path (or
/// `None` outside the project), and whether the command uses search options
/// that need more context than the command itself.
pub struct Profile {
    pub quote: Vec<Option<String>>,
    pub user: Vec<Option<String>>,
    pub system: Vec<Option<String>>,
    pub unsupported: bool,
}

/// The mathematical value of a search-directory list.
pub open spec fn directory_views(v: Seq<Option<String>>) -> Seq<Option<Seq<char>>> {
    v.map_values(|d: Option<String>| match d {
        Some(s) => Some(s@),
        None => None,
    })
}

/// The mathematical value of a [`Profile`].
pub struct ProfileView {
    pub quote: Seq<Option<Seq<char>>>,
    pub user: Seq<Option<Seq<char>>>,
    pub system: Seq<Option<Seq<char>>>,
    pub unsupported: bool,
}

impl View for Profile {
    type V = ProfileView;

    open spec fn view(&self) -> ProfileView {
        ProfileView {
            quote: directory_views(self.quote@),
            user: directory_views(self.user@),
            system: directory_views(self.system@),
            unsupported: self.unsupported,
        }
    }
}

/// An argument that changes the search in ways the command alone does not
/// show: response files, `-I-`, `-idirafter`, `-iprefix`, `-iwithprefix` and
/// sysroots.
pub open spec fn context_flag(a: Seq<char>) -> bool {
    ||| has_prefix(a, seq!['@'])
    ||| a == seq!['-', 'I', '-']
    ||| has_prefix(a, seq!['-', 'i', 'd', 'i', 'r', 'a', 'f', 't', 'e', 'r'])
    ||| has_prefix(a, seq!['-', 'i', 'p', 'r', 'e', 'f', 'i', 'x'])
    ||| has_prefix(a, seq!['-', 'i', 'w', 'i', 't', 'h', 'p', 'r', 'e', 'f', 'i', 'x'])
    ||| has_prefix(a, seq!['-', '-', 's', 'y', 's', 'r', 'o', 'o', 't'])
    ||| has_prefix(a, seq!['-', 'i', 's', 'y', 's', 'r', 'o', 'o', 't'])
}

/// The search-directory option an argument starts with, tried in the order
/// `-iquote`, `-isystem`, `-I`, `/I`: its length and the list it feeds
/// (0 quote, 1 user, 2 system).
pub open spec fn search_flag(a: Seq<char>) -> Option<(int, int)> {
    if has_prefix(a, seq!['-', 'i', 'q', 'u', 'o', 't', 'e']) {
        Some((7, 0))
    } else if has_prefix(a, seq!['-', 'i', 's', 'y', 's', 't', 'e', 'm']) {
        Some((8, 2))
    } else if has_prefix(a, seq!['-', 'I']) {
        Some((2, 1))
    } else if has_prefix(a, seq!['/', 'I']) {
        Some((2, 1))
    } else {
        None
    }
}

/// A value that names a directory through an expansion.
pub open spec fn expanding(v: Seq<char>) -> bool {
    v.contains('$') || v.contains('`') || v.contains('%')
}

/// The profile read from the arguments from position `i` on.
pub open spec fn profile_from(
    root: Seq<char>,
    directory: Seq<char>,
    args: Seq<Seq<char>>,
    i: int,
    p: ProfileView,
) -> ProfileView
    decreases args.len() - i,
{
    if i < 0 || i >= args.len() {
        p
    } else {
        let a = args[i];
        let flagged = ProfileView { unsupported: p.unsupported || context_flag(a), ..p };
        match search_flag(a) {
            None => profile_from(root, directory, args, i + 1, flagged),
            Some((n, kind)) => {
                let rest = a.subrange(n, a.len() as int);
                if rest.len() == 0 && i + 1 >= args.len() {
                    ProfileView { unsupported: true, ..flagged }
                } else {
                    let value = if rest.len() == 0 {
                        args[i + 1]
                    } else {
                        rest
                    };
                    let next = if rest.len() == 0 {
                        i + 2
                    } else {
                        i + 1
                    };
                    let marked = ProfileView { unsupported: flagged.unsupported || expanding(value), ..flagged };
                    let d = project_relative(root, directory, value);
                    let added = if kind == 0 {
                        ProfileView { quote: marked.quote.push(d), ..marked }
                    } else if kind == 2 {
                        ProfileView { system: marked.system.push(d), ..marked }
                    } else {
                        ProfileView { user: marked.user.push(d), ..marked }
                    };
                    profile_from(root, directory, args, next, added)
                }
            },
        }
    }
}

/// The `-I` directories that are not also system directories (GCC treats a
/// directory given both ways as a system one).
pub open spec fn not_system(user: Seq<Option<Seq<char>>>, system: Seq<Option<Seq<char>>>) -> Seq<Option<Seq<char>>>
    decreases user.len(),
{
    if user.len() == 0 {
        Seq::empty()
    } else {
        let rest = not_system(user.drop_last(), system);
        let d = user.last();
        if d is None || !system.contains(d) {
            rest.push(d)
        } else {
            rest
        }
    }
}

/// The profile of a compile command given as its arguments (`None` when they
/// could not be read), relative to the project `root` and the command's
/// `directory`.
pub open spec fn command_profile(root: Seq<char>, directory: Seq<char>, args: Option<Seq<Seq<char>>>) -> ProfileView {
    match args {
        None => ProfileView { quote: Seq::empty(), user: Seq::empty(), system: Seq::empty(), unsupported: true },
        Some(a) => {
            let p = profile_from(
                root,
                directory,
                a,
                0,
                ProfileView { quote: Seq::empty(), user: Seq::empty(), system: Seq::empty(), unsupported: false },
            );
            ProfileView { user: not_system(p.user, p.system), ..p }
        },
    }
}


fn needs_context(a: &Vec<char>) -> (r: bool)
    ensures
        r == context_flag(a@),
{
    let at = vec!['@'];
    let dash_i_dash = vec!['-', 'I', '-'];
    let after = vec!['-', 'i', 'd', 'i', 'r', 'a', 'f', 't', 'e', 'r'];
    let prefix = vec!['-', 'i', 'p', 'r', 'e', 'f', 'i', 'x'];
    let with_prefix = vec!['-', 'i', 'w', 'i', 't', 'h', 'p', 'r', 'e', 'f', 'i', 'x'];
    let sysroot = vec!['-', '-', 's', 'y', 's', 'r', 'o', 'o', 't'];
    let isysroot = vec!['-', 'i', 's', 'y', 's', 'r', 'o', 'o', 't'];
    assert(at@ =~= seq!['@']);
    assert(dash_i_dash@ =~= seq!['-', 'I', '-']);
    assert(after@ =~= seq!['-', 'i', 'd', 'i', 'r', 'a', 'f', 't', 'e', 'r']);
    assert(prefix@ =~= seq!['-', 'i', 'p', 'r', 'e', 'f', 'i', 'x']);
    assert(with_prefix@ =~= seq!['-', 'i', 'w', 'i', 't', 'h', 'p', 'r', 'e', 'f', 'i', 'x']);
    assert(sysroot@ =~= seq!['-', '-', 's', 'y', 's', 'r', 'o', 'o', 't']);
    assert(isysroot@ =~= seq!['-', 'i', 's', 'y', 's', 'r', 'o', 'o', 't']);
    vec_has_prefix(a, &at) || same(a, &dash_i_dash) || vec_has_prefix(a, &after) || vec_has_prefix(a, &prefix)
        || vec_has_prefix(a, &with_prefix) || vec_has_prefix(a, &sysroot) || vec_has_prefix(a, &isysroot)
}

fn search_option(a: &Vec<char>) -> (r: Option<(usize, u8)>)
    ensures
        match r {
            Some((n, kind)) => search_flag(a@) == Some((n as int, kind as int)),
            None => search_flag(a@) is None,
        },
{
    let quote = vec!['-', 'i', 'q', 'u', 'o', 't', 'e'];
    let system = vec!['-', 'i', 's', 'y', 's', 't', 'e', 'm'];
    let dash = vec!['-', 'I'];
    let slash = vec!['/', 'I'];
    assert(quote@ =~= seq!['-', 'i', 'q', 'u', 'o', 't', 'e']);
    assert(system@ =~= seq!['-', 'i', 's', 'y', 's', 't', 'e', 'm']);
    assert(dash@ =~= seq!['-', 'I']);
    assert(slash@ =~= seq!['/', 'I']);
    if vec_has_prefix(a, &quote) {
        Some((7, 0))
    } else if vec_has_prefix(a, &system) {
        Some((8, 2))
    } else if vec_has_prefix(a, &dash) {
        Some((2, 1))
    } else if vec_has_prefix(a, &slash) {
        Some((2, 1))
    } else {
        None
    }
}

fn copy_directory(d: &Option<String>) -> (r: Option<String>)
    ensures
        match (r, *d) {
            (Some(a), Some(b)) => a@ == b@,
            (None, None) => true,
            _ => false,
        },
{
    match d {
        Some(s) => Some(string_of(&chars_of(s.as_str()))),
        None => None,
    }
}

fn same_directory(a: &Option<String>, b: &Option<String>) -> (r: bool)
    ensures
        r == (match *a {
            Some(x) => Some(x@),
            None => None::<Seq<char>>,
        } == match *b {
            Some(y) => Some(y@),
            None => None::<Seq<char>>,
        }),
{
    match (a, b) {
        (Some(x), Some(y)) => same(&chars_of(x.as_str()), &chars_of(y.as_str())),
        (None, None) => true,
        _ => false,
    }
}

/// Reads the header search directories from a compile command's arguments.
pub fn profile_of(root: &str, directory: &str, arguments: &Option<Vec<String>>) -> (r: Profile)
    ensures
        r@ == command_profile(
            root@,
            directory@,
            match *arguments {
                Some(a) => Some(texts(a@)),
                None => None,
            },
        ),
{
    let args = match arguments {
        None => {
            let r = Profile { quote: Vec::new(), user: Vec::new(), system: Vec::new(), unsupported: true };
            assert(directory_views(r.quote@) =~= Seq::<Option<Seq<char>>>::empty());
            assert(directory_views(r.user@) =~= Seq::<Option<Seq<char>>>::empty());
            assert(directory_views(r.system@) =~= Seq::<Option<Seq<char>>>::empty());
            return r;
        },
        Some(a) => a,
    };
    let ghost av = texts(args@);
    let mut quote: Vec<Option<String>> = Vec::new();
    let mut user: Vec<Option<String>> = Vec::new();
    let mut system: Vec<Option<String>> = Vec::new();
    let mut unsupported = false;
    let ghost start = ProfileView { quote: Seq::empty(), user: Seq::empty(), system: Seq::empty(), unsupported: false };
    proof {
        assert(directory_views(quote@) =~= Seq::<Option<Seq<char>>>::empty());
        assert(directory_views(user@) =~= Seq::<Option<Seq<char>>>::empty());
        assert(directory_views(system@) =~= Seq::<Option<Seq<char>>>::empty());
    }
    let mut i: usize = 0;
    while i < args.len()
        invariant
            av == texts(args@),
            profile_from(
                root@,
                directory@,
                av,
                i as int,
                ProfileView {
                    quote: directory_views(quote@),
                    user: directory_views(user@),
                    system: directory_views(system@),
                    unsupported,
                },
            ) == profile_from(root@, directory@, av, 0, start),
        decreases args.len() - i,
    {
        let a = chars_of(args[i].as_str());
        assert(a@ == av[i as int]);
        let ghost before_state = ProfileView {
            quote: directory_views(quote@),
            user: directory_views(user@),
            system: directory_views(system@),
            unsupported,
        };
        let ghost before_i = i as int;
        if needs_context(&a) {
            unsupported = true;
        }
        let flag = search_option(&a);
        match flag {
            None => {
                i += 1;
            },
            Some((n, kind)) => {
                let rest = vec_slice(&a, n, a.len());
                if rest.len() == 0 && i + 1 >= args.len() {
                    unsupported = true;
                    i = args.len();
                    proof {
                        assert(profile_from(
                            root@,
                            directory@,
                            av,
                            i as int,
                            ProfileView {
                                quote: directory_views(quote@),
                                user: directory_views(user@),
                                system: directory_views(system@),
                                unsupported,
                            },
                        ) == ProfileView {
                            quote: directory_views(quote@),
                            user: directory_views(user@),
                            system: directory_views(system@),
                            unsupported,
                        });
                    }
                } else {
                    let next = if rest.len() == 0 {
                        i + 2
                    } else {
                        i + 1
                    };
                    let value = if rest.len() == 0 {
                        assert(av[i + 1] == args@[i + 1]@);
                        chars_of(args[i + 1].as_str())
                    } else {
                        rest
                    };
                    if vec_contains(&value, '$') || vec_contains(&value, '`') || vec_contains(&value, '%') {
                        unsupported = true;
                    }
                    let text = string_of(&value);
                    let d = project_path(root, directory, text.as_str());
                    let ghost dv = directory_views(seq![d])[0];
                    assert(dv == project_relative(root@, directory@, value@));
                    if kind == 0 {
                        let ghost before = directory_views(quote@);
                        quote.push(d);
                        assert(directory_views(quote@) =~= before.push(dv));
                    } else if kind == 2 {
                        let ghost before = directory_views(system@);
                        system.push(d);
                        assert(directory_views(system@) =~= before.push(dv));
                    } else {
                        let ghost before = directory_views(user@);
                        user.push(d);
                        assert(directory_views(user@) =~= before.push(dv));
                    }
                    i = next;
                }
            },
        }
        proof {
            assert(profile_from(root@, directory@, av, before_i, before_state) == profile_from(
                root@,
                directory@,
                av,
                i as int,
                ProfileView {
                    quote: directory_views(quote@),
                    user: directory_views(user@),
                    system: directory_views(system@),
                    unsupported,
                },
            ));
        }
    }
    let ghost p = ProfileView {
        quote: directory_views(quote@),
        user: directory_views(user@),
        system: directory_views(system@),
        unsupported,
    };
    assert(p == profile_from(root@, directory@, av, 0, start));
    let mut kept: Vec<Option<String>> = Vec::new();
    let mut k: usize = 0;
    proof {
        assert(directory_views(user@).take(0) =~= Seq::<Option<Seq<char>>>::empty());
        assert(directory_views(kept@) =~= Seq::<Option<Seq<char>>>::empty());
    }
    while k < user.len()
        invariant
            k <= user.len(),
            directory_views(kept@) == not_system(directory_views(user@).take(k as int), directory_views(system@)),
        decreases user.len() - k,
    {
        proof {
            assert(directory_views(user@).take(k + 1).drop_last() =~= directory_views(user@).take(k as int));
        }
        let d = &user[k];
        let mut in_system = false;
        let mut t: usize = 0;
        while t < system.len()
            invariant
                t <= system.len(),
                k < user.len(),
                *d == user@[k as int],
                in_system == exists|j: int| 0 <= j < t && directory_views(system@)[j] == directory_views(user@)[k as int],
            decreases system.len() - t,
        {
            let hit = same_directory(&system[t], d);
            assert(directory_views(system@)[t as int] == match system@[t as int] {
                Some(x) => Some(x@),
                None => None::<Seq<char>>,
            });
            assert(directory_views(user@)[k as int] == match user@[k as int] {
                Some(x) => Some(x@),
                None => None::<Seq<char>>,
            });
            if hit {
                assert(directory_views(system@)[t as int] == directory_views(user@)[k as int]);
                in_system = true;
            }
            t += 1;
        }
        if d.is_none() || !in_system {
            let c = copy_directory(d);
            let ghost before = directory_views(kept@);
            kept.push(c);
            assert(directory_views(kept@) =~= before.push(directory_views(user@)[k as int]));
        }
        k += 1;
    }
    assert(directory_views(user@).take(user.len() as int) =~= directory_views(user@));
    Profile { quote, user: kept, system, unsupported }
}

/// One entry of a compilation database as read from its JSON: the directory,
/// the file, the argument list (`Some(None)` when an argument is not a
/// string) and the command line, each absent when missing or not of that type.
pub struct CompileEntry {
    pub directory: Option<String>,
    pub file: Option<String>,
    pub arguments: Option<Option<Vec<String>>>,
    pub command: Option<String>,
}

/// The text of an optional string.
pub open spec fn text_of(s: Option<String>) -> Option<Seq<char>> {
    match s {
        Some(t) => Some(t@),
        None => None,
    }
}

/// The texts of an optional argument list.
pub open spec fn arguments_of(a: Option<Vec<String>>) -> Option<Seq<Seq<char>>> {
    match a {
        Some(v) => Some(texts(v@)),
        None => None,
    }
}

/// The scanned C-family file an entry compiles, with the search profile of
/// its command; `None` when its directory or file lies outside the project or
/// the file is not a scanned C or C++ source.
pub open spec fn entry_profile_of(root: Seq<char>, known: Set<Seq<char>>, entry: CompileEntry) -> Option<
    (Seq<char>, ProfileView),
> {
    entry_profile_from(root, known, text_of(entry.directory), text_of(entry.file), match entry.arguments {
        Some(a) => Some(arguments_of(a)),
        None => None,
    }, text_of(entry.command))
}

/// The same, from the entry's plain values: its directory, file, argument list
/// (`Some(None)` when it holds a non-string), and command.
pub open spec fn entry_profile_from(
    root: Seq<char>,
    known: Set<Seq<char>>,
    directory: Option<Seq<char>>,
    file: Option<Seq<char>>,
    arguments: Option<Option<Seq<Seq<char>>>>,
    command: Option<Seq<char>>,
) -> Option<(Seq<char>, ProfileView)> {
    let raw_directory = match directory {
        Some(d) => d,
        None => seq!['.'],
    };
    match project_relative(root, Seq::empty(), raw_directory) {
        None => None,
        Some(directory) => match file {
            None => None,
            Some(f) => match project_relative(root, directory, f) {
                None => None,
                Some(file) => if !known.contains(file) || !c_source(file) {
                    None
                } else {
                    let args = match arguments {
                        Some(a) => a,
                        None => match command {
                            Some(c) => command_words(c),
                            None => None,
                        },
                    };
                    Some((file, command_profile(root, directory, args)))
                },
            },
        },
    }
}

/// Reads one compilation-database entry against the scanned files `known`.
pub fn entry_profile(root: &str, known: &FileSet, entry: &CompileEntry) -> (r: Option<(String, Profile)>)
    ensures
        match r {
            Some((file, profile)) => entry_profile_of(root@, known@, *entry) == Some((file@, profile@)),
            None => entry_profile_of(root@, known@, *entry) is None,
        },
{
    let raw_directory = match &entry.directory {
        Some(d) => string_of(&chars_of(d.as_str())),
        None => {
            let dot = vec!['.'];
            assert(dot@ =~= seq!['.']);
            string_of(&dot)
        },
    };
    proof {
        reveal_strlit("");
        assert(""@ =~= Seq::<char>::empty());
    }
    let directory = match project_path(root, "", raw_directory.as_str()) {
        None => {
            return None;
        },
        Some(d) => d,
    };
    let file = match &entry.file {
        None => {
            return None;
        },
        Some(f) => match project_path(root, directory.as_str(), f.as_str()) {
            None => {
                return None;
            },
            Some(file) => file,
        },
    };
    if !known.contains(file.as_str()) || !is_source(file.as_str()) {
        return None;
    }
    let arguments: Option<Vec<String>> = match &entry.arguments {
        Some(Some(list)) => Some(copy_words(list)),
        Some(None) => None,
        None => match &entry.command {
            Some(c) => split_command(c.as_str()),
            None => None,
        },
    };
    let profile = profile_of(root, directory.as_str(), &arguments);
    Some((file, profile))
}

fn copy_words(v: &Vec<String>) -> (r: Vec<String>)
    ensures
        texts(r@) == texts(v@),
{
    let mut r: Vec<String> = Vec::new();
    let mut i: usize = 0;
    while i < v.len()
        invariant
            i <= v.len(),
            texts(r@) == texts(v@).take(i as int),
        decreases v.len() - i,
    {
        let w = string_of(&chars_of(v[i].as_str()));
        let ghost before = texts(r@);
        r.push(w);
        assert(texts(r@) =~= before.push(v@[i as int]@));
        i += 1;
        assert(texts(v@).take(i as int) =~= texts(v@).take(i - 1).push(v@[i - 1]@));
    }
    assert(texts(v@).take(v.len() as int) =~= texts(v@));
    r
}

/// The value of the first member named `key`.
pub open spec fn member_of(members: Seq<(Seq<char>, JsonView)>, key: Seq<char>) -> Option<JsonView>
    decreases members.len(),
{
    if members.len() == 0 {
        None
    } else if members[0].0 == key {
        Some(members[0].1)
    } else {
        member_of(members.drop_first(), key)
    }
}

/// The string member `key` of an object.
pub open spec fn json_text(e: JsonView, key: Seq<char>) -> Option<Seq<char>> {
    match e {
        JsonView::Object(ms) => match member_of(ms, key) {
            Some(JsonView::Text(s)) => Some(s),
            _ => None,
        },
        _ => None,
    }
}

/// The strings of a list, when every element is one.
pub open spec fn all_texts(vs: Seq<JsonView>) -> Option<Seq<Seq<char>>>
    decreases vs.len(),
{
    if vs.len() == 0 {
        Some(Seq::empty())
    } else {
        match all_texts(vs.drop_last()) {
            None => None,
            Some(t) => match vs.last() {
                JsonView::Text(s) => Some(t.push(s)),
                _ => None,
            },
        }
    }
}

/// The `arguments` member of an entry: absent unless it is an array, and
/// `Some(None)` when the array holds a non-string.
pub open spec fn json_arguments(e: JsonView) -> Option<Option<Seq<Seq<char>>>> {
    match e {
        JsonView::Object(ms) => match member_of(ms, "arguments"@) {
            Some(JsonView::Array(vs)) => Some(all_texts(vs)),
            _ => None,
        },
        _ => None,
    }
}

/// The profile of one compilation-database entry.
pub open spec fn json_entry_profile(root: Seq<char>, known: Set<Seq<char>>, e: JsonView) -> Option<(Seq<char>, ProfileView)> {
    entry_profile_from(root, known, json_text(e, "directory"@), json_text(e, "file"@), json_arguments(e), json_text(e, "command"@))
}

/// The profiles of the entries, in order, skipping those that give none.
pub open spec fn entry_profiles(root: Seq<char>, known: Set<Seq<char>>, entries: Seq<JsonView>) -> Seq<(Seq<char>, ProfileView)>
    decreases entries.len(),
{
    if entries.len() == 0 {
        Seq::empty()
    } else {
        entry_profiles(root, known, entries.drop_last()) + match json_entry_profile(root, known, entries.last()) {
            Some(x) => seq![x],
            None => Seq::empty(),
        }
    }
}

/// The most compilation-database entries read.
pub const MAX_COMPILE_ENTRIES: usize = 10000;

/// The profiles a compilation database gives: for each of its first
/// `MAX_COMPILE_ENTRIES` entries that names a scanned C or C++ source, that
/// file and its profile; none when the text is not a JSON array.
pub open spec fn compilation_profiles_of(root: Seq<char>, known: Set<Seq<char>>, config: Seq<char>) -> Seq<(Seq<char>, ProfileView)> {
    match parsed_json(config) {
        Some(JsonView::Array(es)) => entry_profiles(root, known, es.take(
            if es.len() < MAX_COMPILE_ENTRIES { es.len() as int } else { MAX_COMPILE_ENTRIES as int },
        )),
        _ => Seq::empty(),
    }
}

/// The values of a list of file profiles.
pub open spec fn file_profiles_view(v: Seq<(String, Profile)>) -> Seq<(Seq<char>, ProfileView)> {
    v.map_values(|x: (String, Profile)| (x.0@, x.1@))
}

/// The value of the first member named `key`.
fn member<'a>(members: &'a Vec<(String, Json)>, key: &str) -> (r: Option<&'a Json>)
    ensures
        match r {
            Some(j) => member_of(member_views(members@), key@) == Some(j@),
            None => member_of(member_views(members@), key@) is None,
        },
{
    proof {
        lemma_member_views(members@);
    }
    let mut i: usize = 0;
    assert(member_views(members@).subrange(0, members@.len() as int) =~= member_views(members@));
    while i < members.len()
        invariant
            i <= members@.len(),
            member_views(members@).len() == members@.len(),
            forall|j: int| 0 <= j < members@.len() ==> #[trigger] member_views(members@)[j] == (members@[j].0@, json_view(members@[j].1)),
            member_of(member_views(members@), key@) == member_of(member_views(members@).subrange(i as int, members@.len() as int), key@),
        decreases members@.len() - i,
    {
        proof {
            let t = member_views(members@).subrange(i as int, members@.len() as int);
            assert(t.drop_first() =~= member_views(members@).subrange(i + 1, members@.len() as int));
            assert(t[0] == member_views(members@)[i as int]);
        }
        if crate::text_util::str_eq(members[i].0.as_str(), key) {
            return Some(&members[i].1);
        }
        i += 1;
    }
    proof {
        assert(member_views(members@).subrange(i as int, members@.len() as int) =~= Seq::<(Seq<char>, JsonView)>::empty());
    }
    None
}

/// The string member `key` of an entry.
fn entry_text(e: &Json, key: &str) -> (r: Option<String>)
    ensures
        text_of(r) == json_text(e@, key@),
{
    match e {
        Json::Object(ms) => match member(ms, key) {
            Some(Json::Text(s)) => Some(s.clone()),
            _ => None,
        },
        _ => None,
    }
}

/// The `arguments` member of an entry.
fn entry_arguments(e: &Json) -> (r: Option<Option<Vec<String>>>)
    ensures
        match r {
            Some(a) => json_arguments(e@) == Some(arguments_of(a)),
            None => json_arguments(e@) is None,
        },
{
    let vs = match e {
        Json::Object(ms) => match member(ms, "arguments") {
            Some(Json::Array(vs)) => vs,
            _ => {
                return None;
            },
        },
        _ => {
            return None;
        },
    };
    proof {
        lemma_json_views(vs@);
    }
    let mut out: Vec<String> = Vec::new();
    let mut i: usize = 0;
    assert(json_views(vs@).subrange(0, 0) =~= Seq::<JsonView>::empty());
    assert(texts(out@) =~= Seq::<Seq<char>>::empty());
    assert(json_arguments(e@) == Some(all_texts(json_views(vs@))));
    while i < vs.len()
        invariant
            i <= vs@.len(),
            json_arguments(e@) == Some(all_texts(json_views(vs@))),
            json_views(vs@).len() == vs@.len(),
            forall|j: int| 0 <= j < vs@.len() ==> #[trigger] json_views(vs@)[j] == json_view(vs@[j]),
            all_texts(json_views(vs@).subrange(0, i as int)) == Some(texts(out@)),
        decreases vs@.len() - i,
    {
        proof {
            let t = json_views(vs@).subrange(0, i + 1);
            assert(t.drop_last() =~= json_views(vs@).subrange(0, i as int));
            assert(t.last() == json_view(vs@[i as int]));
        }
        match &vs[i] {
            Json::Text(s) => {
                let ghost before = out@;
                out.push(s.clone());
                assert(texts(out@) =~= texts(before).push(s@));
            },
            _ => {
                proof {
                    lemma_texts_stay_none(json_views(vs@), i as int + 1);
                }
                return Some(None);
            },
        }
        i += 1;
    }
    assert(json_views(vs@).subrange(0, vs@.len() as int) =~= json_views(vs@));
    Some(Some(out))
}

/// Once a prefix holds a non-string, so does every longer one.
proof fn lemma_texts_stay_none(vs: Seq<JsonView>, k: int)
    requires
        0 <= k <= vs.len(),
        all_texts(vs.subrange(0, k)) is None,
    ensures
        all_texts(vs) is None,
    decreases vs.len() - k,
{
    if k < vs.len() {
        let t = vs.subrange(0, k + 1);
        assert(t.drop_last() =~= vs.subrange(0, k));
        lemma_texts_stay_none(vs, k + 1);
    } else {
        assert(vs.subrange(0, k) =~= vs);
    }
}

/// The profiles of the compilation database `config` of the project at `root`
/// against the scanned files `known`.
pub fn compilation_profiles(root: &str, known: &FileSet, config: &str) -> (r: Vec<(String, Profile)>)
    ensures
        file_profiles_view(r@) == compilation_profiles_of(root@, known@, config@),
{
    let mut out: Vec<(String, Profile)> = Vec::new();
    assert(file_profiles_view(out@) =~= Seq::empty());
    let doc = json_value(config);
    let entries = match &doc {
        Some(Json::Array(es)) => es,
        _ => {
            return out;
        },
    };
    proof {
        lemma_json_views(entries@);
    }
    let ghost es = json_views(entries@);
    let n = if entries.len() < MAX_COMPILE_ENTRIES { entries.len() } else { MAX_COMPILE_ENTRIES };
    let mut i: usize = 0;
    assert(es.take(n as int).subrange(0, 0) =~= Seq::<JsonView>::empty());
    while i < n
        invariant
            i <= n,
            n <= entries@.len(),
            es == json_views(entries@),
            es.len() == entries@.len(),
            forall|j: int| 0 <= j < entries@.len() ==> #[trigger] es[j] == json_view(entries@[j]),
            file_profiles_view(out@) == entry_profiles(root@, known@, es.take(n as int).subrange(0, i as int)),
        decreases n - i,
    {
        let e = &entries[i];
        let entry = CompileEntry {
            directory: entry_text(e, "directory"),
            file: entry_text(e, "file"),
            arguments: entry_arguments(e),
            command: entry_text(e, "command"),
        };
        proof {
            let t = es.take(n as int).subrange(0, i + 1);
            assert(t.drop_last() =~= es.take(n as int).subrange(0, i as int));
            assert(t.last() == es[i as int]);
            assert(entry_profile_of(root@, known@, entry) == json_entry_profile(root@, known@, es[i as int]));
        }
        let ghost before = file_profiles_view(out@);
        match entry_profile(root, known, &entry) {
            Some(x) => {
                let ghost v = (x.0@, x.1@);
                out.push(x);
                assert(file_profiles_view(out@) =~= before.push(v));
            },
            None => {},
        }
        i += 1;
        assert(file_profiles_view(out@) =~= entry_profiles(root@, known@, es.take(n as int).subrange(0, i as int)));
    }
    assert(es.take(n as int).subrange(0, n as int) =~= es.take(n as int));
    out
}

} // verus!
