//! Where a C or C++ `#include` leads: the quoted directory, then each
//! compilation profile's search directories, which must all agree; a file on
//! disk that is not a scanned source shadows later directories. The disk is
//! asked one path at a time: each call either settles the include or names the
//! path whose existence it needs next.
use vstd::prelude::*;
use crate::languages::c_family::{c_source, directory_views, is_source, Profile, ProfileView};
use crate::model::FileSet;
use crate::paths::{normalize, normalized};
use crate::resolver::{Resolution, ResolutionView};
use crate::text_util::{before_last, chars_of, str_eq, string_of, vec_before_last, vec_contains};

verus! {

/// Why an include is refused: a format that is not supported.
pub open spec fn unsupported_reason() -> Seq<char> {
    "包含路径使用不支持的格式。"@
}

/// Why an include is refused: the path leaves the project.
pub open spec fn outside_reason() -> Seq<char> {
    "路径位于所选项目之外。"@
}

/// Why an include is refused: the search path is not explicit and consistent.
pub open spec fn search_path_reason() -> Seq<char> {
    "包含目标需要明确且一致的编译器搜索路径；未按同名文件猜测连线。"@
}

/// Why an include is refused: the target is not among the scanned files.
pub open spec fn missing_reason() -> Seq<char> {
    "在已扫描的 C/C++ 文件中未找到包含目标。"@
}

/// One step of resolving an include.
#[derive(Debug, PartialEq, Eq)]
pub enum IncludeStep {
    /// The include is settled.
    Done(Resolution),
    /// Whether this project-relative path exists on disk is needed next.
    Probe(String),
}

/// The mathematical value of an [`IncludeStep`].
pub enum IncludeStepView {
    Done(ResolutionView),
    Probe(Seq<char>),
}

/// The value of a step.
pub open spec fn step_view(s: IncludeStep) -> IncludeStepView {
    match s {
        IncludeStep::Done(r) => IncludeStepView::Done(r@),
        IncludeStep::Probe(p) => IncludeStepView::Probe(p@),
    }
}

/// What is known of the disk: the first answer given for `path`, if any.
pub open spec fn answer(answers: Seq<(Seq<char>, bool)>, path: Seq<char>) -> Option<bool>
    decreases answers.len(),
{
    if answers.len() == 0 {
        None
    } else if answers[0].0 == path {
        Some(answers[0].1)
    } else {
        answer(answers.drop_first(), path)
    }
}

/// The values of a list of answers.
pub open spec fn answers_view(v: Seq<(String, bool)>) -> Seq<(Seq<char>, bool)> {
    v.map_values(|a: (String, bool)| (a.0@, a.1))
}

/// An include without a profile, or found nowhere in its profiles: a file of
/// that name somewhere in the project needs a search path, a quoted one is
/// missing, and an angled one is external.
pub open spec fn unknown_include(specifier: Seq<char>, quoted: bool, suffixes: Set<Seq<char>>) -> ResolutionView {
    if normalized(Seq::empty(), specifier) matches Some(p) && suffixes.contains(p) {
        ResolutionView::Unresolved(search_path_reason())
    } else if quoted {
        ResolutionView::Unresolved(missing_reason())
    } else {
        ResolutionView::External
    }
}

/// The directories a profile searches: its quote directories for a quoted
/// include, then its user and system directories.
pub open spec fn search_dirs(p: ProfileView, quoted: bool) -> Seq<Option<Seq<char>>> {
    (if quoted { p.quote } else { Seq::empty() }) + p.user + p.system
}

/// The search through `dirs` from the `k`-th on; `outside` once a directory
/// outside the project came first.
pub open spec fn search_from(
    dirs: Seq<Option<Seq<char>>>,
    k: int,
    outside: bool,
    specifier: Seq<char>,
    quoted: bool,
    known: Set<Seq<char>>,
    suffixes: Set<Seq<char>>,
    answers: Seq<(Seq<char>, bool)>,
) -> IncludeStepView
    decreases dirs.len() - k,
{
    if k < 0 || k >= dirs.len() {
        IncludeStepView::Done(unknown_include(specifier, quoted, suffixes))
    } else {
        match dirs[k] {
            None => search_from(dirs, k + 1, true, specifier, quoted, known, suffixes, answers),
            Some(d) => match normalized(d, specifier) {
                None => search_from(dirs, k + 1, true, specifier, quoted, known, suffixes, answers),
                Some(c) => if known.contains(c) && c_source(c) {
                    if outside {
                        IncludeStepView::Done(ResolutionView::Unresolved(search_path_reason()))
                    } else {
                        IncludeStepView::Done(ResolutionView::Internal(c))
                    }
                } else {
                    match answer(answers, c) {
                        None => IncludeStepView::Probe(c),
                        Some(true) => IncludeStepView::Done(ResolutionView::Unresolved(missing_reason())),
                        Some(false) => search_from(dirs, k + 1, outside, specifier, quoted, known, suffixes, answers),
                    }
                },
            },
        }
    }
}

/// The search through every profile from the `k`-th on, which must each reach
/// `first`.
pub open spec fn agree_from(
    profiles: Seq<ProfileView>,
    k: int,
    first: ResolutionView,
    specifier: Seq<char>,
    quoted: bool,
    known: Set<Seq<char>>,
    suffixes: Set<Seq<char>>,
    answers: Seq<(Seq<char>, bool)>,
) -> IncludeStepView
    decreases profiles.len() - k,
{
    if k < 0 || k >= profiles.len() {
        IncludeStepView::Done(first)
    } else {
        match search_from(search_dirs(profiles[k], quoted), 0, false, specifier, quoted, known, suffixes, answers) {
            IncludeStepView::Probe(p) => IncludeStepView::Probe(p),
            IncludeStepView::Done(r) => if r == first {
                agree_from(profiles, k + 1, first, specifier, quoted, known, suffixes, answers)
            } else {
                IncludeStepView::Done(ResolutionView::Unresolved(search_path_reason()))
            },
        }
    }
}

/// The profiles' search, after the quoted directory.
pub open spec fn profiles_step(
    profiles: Seq<ProfileView>,
    specifier: Seq<char>,
    quoted: bool,
    known: Set<Seq<char>>,
    suffixes: Set<Seq<char>>,
    answers: Seq<(Seq<char>, bool)>,
) -> IncludeStepView {
    if profiles.len() == 0 {
        IncludeStepView::Done(unknown_include(specifier, quoted, suffixes))
    } else {
        match search_from(search_dirs(profiles[0], quoted), 0, false, specifier, quoted, known, suffixes, answers) {
            IncludeStepView::Probe(p) => IncludeStepView::Probe(p),
            IncludeStepView::Done(first) => agree_from(profiles, 1, first, specifier, quoted, known, suffixes, answers),
        }
    }
}

/// The next step of resolving `specifier` included by `importer`, with the
/// importer's compilation profiles, the scanned files, every path suffix of a
/// scanned C-family file, and the answers the disk gave so far.
pub open spec fn include_step_spec(
    importer: Seq<char>,
    specifier: Seq<char>,
    quoted: bool,
    profiles: Seq<ProfileView>,
    known: Set<Seq<char>>,
    suffixes: Set<Seq<char>>,
    answers: Seq<(Seq<char>, bool)>,
) -> IncludeStepView {
    if specifier.len() == 0 || specifier.contains('\\') || specifier.contains('\0') || specifier.contains(':') {
        IncludeStepView::Done(ResolutionView::Unresolved(unsupported_reason()))
    } else if specifier[0] == '/' {
        IncludeStepView::Done(ResolutionView::Unresolved(outside_reason()))
    } else if exists|i: int| 0 <= i < profiles.len() && #[trigger] profiles[i].unsupported {
        IncludeStepView::Done(ResolutionView::Unresolved(search_path_reason()))
    } else if quoted {
        match normalized(before_last(importer, '/'), specifier) {
            None => IncludeStepView::Done(ResolutionView::Unresolved(outside_reason())),
            Some(relative) => if known.contains(relative) && c_source(relative) {
                IncludeStepView::Done(ResolutionView::Internal(relative))
            } else {
                match answer(answers, relative) {
                    None => IncludeStepView::Probe(relative),
                    Some(true) => IncludeStepView::Done(ResolutionView::Unresolved(missing_reason())),
                    Some(false) => profiles_step(profiles, specifier, quoted, known, suffixes, answers),
                }
            },
        }
    } else {
        profiles_step(profiles, specifier, quoted, known, suffixes, answers)
    }
}

/// The values of a list of profiles.
pub open spec fn profiles_view(v: Seq<Profile>) -> Seq<ProfileView> {
    v.map_values(|p: Profile| p@)
}

/// The answer the disk gave for `path`, if any.
fn answer_of(answers: &Vec<(String, bool)>, path: &str) -> (r: Option<bool>)
    ensures
        r == answer(answers_view(answers@), path@),
{
    let mut i: usize = 0;
    assert(answers_view(answers@).subrange(0, answers@.len() as int) =~= answers_view(answers@));
    while i < answers.len()
        invariant
            i <= answers@.len(),
            answer(answers_view(answers@), path@) == answer(answers_view(answers@).subrange(i as int, answers@.len() as int), path@),
        decreases answers@.len() - i,
    {
        proof {
            let t = answers_view(answers@).subrange(i as int, answers@.len() as int);
            assert(t.drop_first() =~= answers_view(answers@).subrange(i + 1, answers@.len() as int));
            assert(t[0] == (answers@[i as int].0@, answers@[i as int].1));
        }
        if str_eq(answers[i].0.as_str(), path) {
            return Some(answers[i].1);
        }
        i += 1;
    }
    proof {
        assert(answers_view(answers@).subrange(i as int, answers@.len() as int) =~= Seq::<(Seq<char>, bool)>::empty());
    }
    None
}

/// An include found nowhere.
fn unknown_of(specifier: &str, quoted: bool, suffixes: &FileSet) -> (r: Resolution)
    ensures
        r@ == unknown_include(specifier@, quoted, suffixes@),
{
    proof {
        reveal_strlit("");
        assert(""@ =~= Seq::<char>::empty());
    }
    let found = match normalize("", specifier) {
        Some(p) => suffixes.contains(p.as_str()),
        None => false,
    };
    if found {
        Resolution::Unresolved("包含目标需要明确且一致的编译器搜索路径；未按同名文件猜测连线。")
    } else if quoted {
        Resolution::Unresolved("在已扫描的 C/C++ 文件中未找到包含目标。")
    } else {
        Resolution::External
    }
}

/// A copy of an optional directory.
fn copy_dir(d: &Option<String>) -> (r: Option<String>)
    ensures
        directory_views(seq![r]) == directory_views(seq![*d]),
{
    match d {
        Some(s) => Some(s.clone()),
        None => None,
    }
}

/// Appends copies of the directories in `more`.
fn append_dirs(out: &mut Vec<Option<String>>, more: &Vec<Option<String>>)
    ensures
        directory_views(final(out)@) == directory_views(old(out)@) + directory_views(more@),
{
    let mut i: usize = 0;
    while i < more.len()
        invariant
            i <= more@.len(),
            directory_views(out@) == directory_views(old(out)@) + directory_views(more@.subrange(0, i as int)),
        decreases more@.len() - i,
    {
        let d = copy_dir(&more[i]);
        let ghost before = out@;
        out.push(d);
        proof {
            assert(directory_views(seq![d])[0] == directory_views(seq![more@[i as int]])[0]);
            assert(directory_views(out@) =~= directory_views(before).push(directory_views(more@)[i as int]));
        }
        i += 1;
        assert(directory_views(out@) =~= directory_views(old(out)@) + directory_views(more@.subrange(0, i as int)));
    }
    assert(more@.subrange(0, more@.len() as int) =~= more@);
}

/// The directories a profile searches.
fn directories(p: &Profile, quoted: bool) -> (r: Vec<Option<String>>)
    ensures
        directory_views(r@) == search_dirs(p@, quoted),
{
    let mut out: Vec<Option<String>> = Vec::new();
    assert(directory_views(out@) =~= Seq::empty());
    if quoted {
        append_dirs(&mut out, &p.quote);
    }
    append_dirs(&mut out, &p.user);
    append_dirs(&mut out, &p.system);
    assert(directory_views(out@) =~= search_dirs(p@, quoted));
    out
}

/// The search through one profile's directories.
fn search(p: &Profile, specifier: &str, quoted: bool, known: &FileSet, suffixes: &FileSet, answers: &Vec<(String, bool)>) -> (r: IncludeStep)
    ensures
        step_view(r) == search_from(search_dirs(p@, quoted), 0, false, specifier@, quoted, known@, suffixes@, answers_view(answers@)),
{
    let dirs = directories(p, quoted);
    let ghost ds = directory_views(dirs@);
    let mut outside = false;
    let mut k: usize = 0;
    while k < dirs.len()
        invariant
            k <= dirs@.len(),
            ds == directory_views(dirs@),
            ds.len() == dirs@.len(),
            ds == search_dirs(p@, quoted),
            search_from(ds, 0, false, specifier@, quoted, known@, suffixes@, answers_view(answers@))
                == search_from(ds, k as int, outside, specifier@, quoted, known@, suffixes@, answers_view(answers@)),
        decreases dirs@.len() - k,
    {
        match &dirs[k] {
            None => {
                outside = true;
            },
            Some(d) => {
                match normalize(d.as_str(), specifier) {
                    None => {
                        outside = true;
                    },
                    Some(c) => {
                        if known.contains(c.as_str()) && is_source(c.as_str()) {
                            if outside {
                                return IncludeStep::Done(Resolution::Unresolved("包含目标需要明确且一致的编译器搜索路径；未按同名文件猜测连线。"));
                            }
                            return IncludeStep::Done(Resolution::Internal(c));
                        }
                        match answer_of(answers, c.as_str()) {
                            None => {
                                return IncludeStep::Probe(c);
                            },
                            Some(true) => {
                                return IncludeStep::Done(Resolution::Unresolved("在已扫描的 C/C++ 文件中未找到包含目标。"));
                            },
                            Some(false) => {},
                        }
                    },
                }
            },
        }
        k += 1;
    }
    IncludeStep::Done(unknown_of(specifier, quoted, suffixes))
}

/// The search through every profile after the first, which must each agree
/// with `first`, or through none.
fn search_profiles(profiles: &Vec<Profile>, specifier: &str, quoted: bool, known: &FileSet, suffixes: &FileSet, answers: &Vec<(String, bool)>) -> (r: IncludeStep)
    ensures
        step_view(r) == profiles_step(profiles_view(profiles@), specifier@, quoted, known@, suffixes@, answers_view(answers@)),
{
    let ghost ps = profiles_view(profiles@);
    if profiles.len() == 0 {
        return IncludeStep::Done(unknown_of(specifier, quoted, suffixes));
    }
    let first = match search(&profiles[0], specifier, quoted, known, suffixes, answers) {
        IncludeStep::Probe(p) => {
            return IncludeStep::Probe(p);
        },
        IncludeStep::Done(r) => r,
    };
    let mut k: usize = 1;
    while k < profiles.len()
        invariant
            1 <= k <= profiles@.len(),
            ps == profiles_view(profiles@),
            ps.len() == profiles@.len(),
            profiles_step(ps, specifier@, quoted, known@, suffixes@, answers_view(answers@))
                == agree_from(ps, k as int, first@, specifier@, quoted, known@, suffixes@, answers_view(answers@)),
        decreases profiles@.len() - k,
    {
        match search(&profiles[k], specifier, quoted, known, suffixes, answers) {
            IncludeStep::Probe(p) => {
                return IncludeStep::Probe(p);
            },
            IncludeStep::Done(r) => {
                if !same_resolution(&r, &first) {
                    return IncludeStep::Done(Resolution::Unresolved("包含目标需要明确且一致的编译器搜索路径；未按同名文件猜测连线。"));
                }
            },
        }
        k += 1;
    }
    IncludeStep::Done(first)
}

/// Whether two resolutions are the same.
fn same_resolution(a: &Resolution, b: &Resolution) -> (r: bool)
    ensures
        r == (a@ == b@),
{
    match (a, b) {
        (Resolution::Internal(x), Resolution::Internal(y)) => str_eq(x.as_str(), y.as_str()),
        (Resolution::External, Resolution::External) => true,
        (Resolution::Unresolved(x), Resolution::Unresolved(y)) => str_eq(x, y),
        _ => false,
    }
}

/// The next step of resolving `specifier` included by `importer`: the
/// resolution, or the path whose existence on disk is needed first. `profiles`
/// are the importer's compilation profiles (none without a compilation
/// database entry), `known` the scanned files, `suffixes` every path suffix of
/// a scanned C-family file, and `answers` what the disk said so far.
pub fn include_step(
    importer: &str,
    specifier: &str,
    quoted: bool,
    profiles: &Vec<Profile>,
    known: &FileSet,
    suffixes: &FileSet,
    answers: &Vec<(String, bool)>,
) -> (r: IncludeStep)
    ensures
        step_view(r) == include_step_spec(importer@, specifier@, quoted, profiles_view(profiles@), known@, suffixes@, answers_view(answers@)),
{
    let ghost ps = profiles_view(profiles@);
    let cs = chars_of(specifier);
    if cs.len() == 0 || vec_contains(&cs, '\\') || vec_contains(&cs, '\0') || vec_contains(&cs, ':') {
        return IncludeStep::Done(Resolution::Unresolved("包含路径使用不支持的格式。"));
    }
    if cs[0] == '/' {
        return IncludeStep::Done(Resolution::Unresolved("路径位于所选项目之外。"));
    }
    let mut i: usize = 0;
    while i < profiles.len()
        invariant
            i <= profiles@.len(),
            ps == profiles_view(profiles@),
            forall|j: int| 0 <= j < i ==> !(#[trigger] ps[j]).unsupported,
            cs@ == specifier@,
            cs@.len() > 0,
            !cs@.contains('\\'),
            !cs@.contains('\0'),
            !cs@.contains(':'),
            cs@[0] != '/',
        decreases profiles@.len() - i,
    {
        if profiles[i].unsupported {
            assert(ps[i as int] == profiles@[i as int]@);
            assert(ps[i as int].unsupported);
            return IncludeStep::Done(Resolution::Unresolved("包含目标需要明确且一致的编译器搜索路径；未按同名文件猜测连线。"));
        }
        i += 1;
    }
    if quoted {
        let directory = string_of(&vec_before_last(&chars_of(importer), '/'));
        match normalize(directory.as_str(), specifier) {
            None => {
                return IncludeStep::Done(Resolution::Unresolved("路径位于所选项目之外。"));
            },
            Some(relative) => {
                if known.contains(relative.as_str()) && is_source(relative.as_str()) {
                    return IncludeStep::Done(Resolution::Internal(relative));
                }
                match answer_of(answers, relative.as_str()) {
                    None => {
                        return IncludeStep::Probe(relative);
                    },
                    Some(true) => {
                        return IncludeStep::Done(Resolution::Unresolved("在已扫描的 C/C++ 文件中未找到包含目标。"));
                    },
                    Some(false) => {},
                }
            },
        }
    }
    search_profiles(profiles, specifier, quoted, known, suffixes, answers)
}

/// The path suffixes of `id` that follow a `/`, from the `k`-th character on.
pub open spec fn suffixes_from(id: Seq<char>, k: int) -> Seq<Seq<char>>
    decreases id.len() - k,
{
    if k < 0 || k >= id.len() {
        Seq::empty()
    } else {
        (if id[k] == '/' { seq![id.subrange(k + 1, id.len() as int)] } else { Seq::empty() }) + suffixes_from(id, k + 1)
    }
}

/// `id` itself, then each part of it that follows a `/`.
pub open spec fn path_suffixes_of(id: Seq<char>) -> Seq<Seq<char>> {
    seq![id] + suffixes_from(id, 0)
}

/// `id` itself, then each part of it that follows a `/`: the names by which an
/// include could reach the file.
pub fn path_suffixes(id: &str) -> (r: Vec<String>)
    ensures
        crate::order::texts(r@) == path_suffixes_of(id@),
{
    let cs = chars_of(id);
    let mut out: Vec<String> = Vec::new();
    out.push(crate::text_util::owned(id));
    let mut k: usize = 0;
    assert(crate::order::texts(out@) =~= seq![id@]);
    while k < cs.len()
        invariant
            k <= cs@.len(),
            cs@ == id@,
            path_suffixes_of(id@) == crate::order::texts(out@) + suffixes_from(id@, k as int),
        decreases cs@.len() - k,
    {
        let ghost before = crate::order::texts(out@);
        if cs[k] == '/' {
            let part = string_of(&crate::text_util::vec_slice(&cs, k + 1, cs.len()));
            out.push(part);
            assert(crate::order::texts(out@) =~= before + seq![id@.subrange(k + 1, id@.len() as int)]);
        } else {
            assert(crate::order::texts(out@) =~= before + Seq::empty());
        }
        k += 1;
    }
    assert(suffixes_from(id@, k as int) =~= Seq::empty());
    out
}

/// The extensions that mark a C++ project.
pub open spec fn cpp_extensions() -> Seq<Seq<char>> {
    seq![seq!['c', 'p', 'p'], seq!['c', 'c'], seq!['c', 'x', 'x'], seq!['h', 'p', 'p'], seq!['h', 'h'], seq!['h', 'x', 'x']]
}

/// A file whose presence makes headers C++: one ending in `.C`, or one whose
/// extension, in lower case, is a C++ extension.
pub open spec fn cpp_file(id: Seq<char>) -> bool {
    crate::text_util::has_suffix(id, seq!['.', 'C']) || (crate::text_util::last_index(id, '.') is Some
        && cpp_extensions().contains(crate::scanner::ascii_lower(crate::text_util::after_last(id, '.'))))
}

/// Whether a file makes headers C++.
pub fn is_cpp_file(id: &str) -> (r: bool)
    ensures
        r == cpp_file(id@),
{
    let cs = chars_of(id);
    let upper = vec!['.', 'C'];
    assert(upper@ =~= seq!['.', 'C']);
    if crate::text_util::vec_has_suffix(&cs, &upper) {
        return true;
    }
    if crate::text_util::vec_last_index(&cs, '.').is_none() {
        return false;
    }
    let lower = crate::scanner::to_ascii_lower(string_of(&crate::text_util::vec_after_last(&cs, '.')).as_str());
    let list = vec![vec!['c', 'p', 'p'], vec!['c', 'c'], vec!['c', 'x', 'x'], vec!['h', 'p', 'p'], vec!['h', 'h'], vec!['h', 'x', 'x']];
    assert(list@[0]@ =~= seq!['c', 'p', 'p']);
    assert(list@[1]@ =~= seq!['c', 'c']);
    assert(list@[2]@ =~= seq!['c', 'x', 'x']);
    assert(list@[3]@ =~= seq!['h', 'p', 'p']);
    assert(list@[4]@ =~= seq!['h', 'h']);
    assert(list@[5]@ =~= seq!['h', 'x', 'x']);
    assert(crate::text_util::views(list@) =~= cpp_extensions());
    crate::scanner::listed(&chars_of(lower.as_str()), &list)
}

} // verus!
