//! Lexical operations on slash-separated relative paths. Nothing here touches
//! the file system.
use vstd::prelude::*;
use crate::text_util::{
    before_last, chars_of, drop_empty, has_prefix, join_with, nonempty, split_on, string_of,
    vec_before_last, vec_has_prefix, vec_join, vec_split, views,
};

verus! {

/// One path component applied to the components walked so far: `""` and `"."`
/// change nothing, `".."` leaves the last one (and fails above the start), any
/// other name is entered.
pub open spec fn step(parts: Seq<Seq<char>>, segment: Seq<char>) -> Option<Seq<Seq<char>>> {
    if segment.len() == 0 || segment == seq!['.'] {
        Some(parts)
    } else if segment == seq!['.', '.'] {
        if parts.len() == 0 {
            None
        } else {
            Some(parts.drop_last())
        }
    } else {
        Some(parts.push(segment))
    }
}

/// The components reached from `parts` by the segments in order, or `None`
/// when a `".."` climbs above the start.
pub open spec fn walk(parts: Seq<Seq<char>>, segments: Seq<Seq<char>>) -> Option<Seq<Seq<char>>>
    decreases segments.len(),
{
    if segments.len() == 0 {
        Some(parts)
    } else {
        match walk(parts, segments.drop_last()) {
            None => None,
            Some(p) => step(p, segments.last()),
        }
    }
}

/// Once a walk has failed, no further segment repairs it.
proof fn lemma_walk_stuck(parts: Seq<Seq<char>>, segments: Seq<Seq<char>>, i: int, j: int)
    requires
        0 <= i <= j <= segments.len(),
        walk(parts, segments.take(i)) is None,
    ensures
        walk(parts, segments.take(j)) is None,
    decreases j - i,
{
    if i < j {
        lemma_walk_stuck(parts, segments, i, j - 1);
        assert(segments.take(j).drop_last() =~= segments.take(j - 1));
    }
}

/// `path` read relative to `directory`, both split at `/`, with the result
/// joined by `/`.
pub open spec fn normalized(directory: Seq<char>, path: Seq<char>) -> Option<Seq<char>> {
    match walk(nonempty(split_on(directory, '/')), split_on(path, '/')) {
        None => None,
        Some(p) => Some(join_with(p, '/')),
    }
}

/// Whether the component is `"."`.
fn is_dot(v: &Vec<char>) -> (r: bool)
    ensures
        r == (v@ == seq!['.']),
{
    if v.len() == 1 && v[0] == '.' {
        assert(v@ =~= seq!['.']);
        true
    } else {
        false
    }
}

/// Whether the component is `".."`.
fn is_dot_dot(v: &Vec<char>) -> (r: bool)
    ensures
        r == (v@ == seq!['.', '.']),
{
    if v.len() == 2 && v[0] == '.' && v[1] == '.' {
        assert(v@ =~= seq!['.', '.']);
        true
    } else {
        false
    }
}

/// Resolves `path` against `directory` without leaving the tree: `None` when
/// a `..` climbs above the root.
pub fn normalize(directory: &str, path: &str) -> (r: Option<String>)
    ensures
        match r {
            Some(s) => normalized(directory@, path@) == Some(s@),
            None => normalized(directory@, path@) is None,
        },
{
    let start = drop_empty(vec_split(&chars_of(directory), '/'));
    let segments = vec_split(&chars_of(path), '/');
    let mut parts = start;
    let mut i: usize = 0;
    proof {
        assert(views(segments@).take(0) =~= Seq::<Seq<char>>::empty());
    }
    while i < segments.len()
        invariant
            i <= segments.len(),
            views(segments@) == split_on(path@, '/'),
            walk(nonempty(split_on(directory@, '/')), views(segments@).take(i as int)) == Some(
                views(parts@),
            ),
        decreases segments.len() - i,
    {
        proof {
            assert(views(segments@).take(i + 1).drop_last() =~= views(segments@).take(i as int));
            assert(views(segments@).take(i + 1).last() == segments@[i as int]@);
        }
        let segment = &segments[i];
        if segment.len() == 0 || is_dot(segment) {
        } else if is_dot_dot(segment) {
            if parts.len() == 0 {
                proof {
                    lemma_walk_stuck(
                        nonempty(split_on(directory@, '/')),
                        views(segments@),
                        i + 1,
                        segments.len() as int,
                    );
                    assert(views(segments@).take(segments.len() as int) =~= views(segments@));
                }
                return None;
            }
            let ghost before = views(parts@);
            parts.pop();
            assert(views(parts@) =~= before.drop_last());
        } else {
            let ghost before = views(parts@);
            parts.push(segment.clone());
            assert(views(parts@) =~= before.push(segment@));
        }
        i += 1;
    }
    assert(views(segments@).take(segments.len() as int) =~= views(segments@));
    Some(string_of(&vec_join(&parts, '/')))
}

/// The directory part of a path: everything before its last `/`, or `""`.
pub fn parent(path: &str) -> (r: String)
    ensures
        r@ == before_last(path@, '/'),
{
    string_of(&vec_before_last(&chars_of(path), '/'))
}

/// `directory/name`, where an empty side gives the other side alone.
pub open spec fn joined(directory: Seq<char>, name: Seq<char>) -> Seq<char> {
    if directory.len() == 0 {
        name
    } else if name.len() == 0 {
        directory
    } else {
        directory + seq!['/'] + name
    }
}

/// `directory/name`, where an empty side gives the other side alone.
pub fn join_path(directory: &str, name: &str) -> (r: String)
    ensures
        r@ == joined(directory@, name@),
{
    let d = chars_of(directory);
    let n = chars_of(name);
    if d.len() == 0 {
        string_of(&n)
    } else if n.len() == 0 {
        string_of(&d)
    } else {
        let mut v = d;
        v.push('/');
        let mut i: usize = 0;
        let ghost start = v@;
        while i < n.len()
            invariant
                i <= n.len(),
                v@ == start + n@.take(i as int),
            decreases n.len() - i,
        {
            v.push(n[i]);
            i += 1;
            assert(v@ =~= start + n@.take(i as int));
        }
        assert(n@.take(n.len() as int) =~= n@);
        string_of(&v)
    }
}

/// `parent/child`, or `child` alone under the root.
pub open spec fn nested(parent: Seq<char>, child: Seq<char>) -> Seq<char> {
    if parent.len() == 0 {
        child
    } else {
        parent + seq!['/'] + child
    }
}

/// `parent/child`, or `child` alone under the root.
pub fn child_path(parent: &str, child: &str) -> (r: String)
    ensures
        r@ == nested(parent@, child@),
{
    let p = chars_of(parent);
    let c = chars_of(child);
    if p.len() == 0 {
        string_of(&c)
    } else {
        let mut v = p;
        v.push('/');
        let mut i: usize = 0;
        let ghost start = v@;
        while i < c.len()
            invariant
                i <= c.len(),
                v@ == start + c@.take(i as int),
            decreases c.len() - i,
        {
            v.push(c[i]);
            i += 1;
            assert(v@ =~= start + c@.take(i as int));
        }
        assert(c@.take(c.len() as int) =~= c@);
        string_of(&v)
    }
}

/// Whether `path` is `directory` itself or lies below it; everything lies
/// below the root `""`.
pub open spec fn inside(path: Seq<char>, directory: Seq<char>) -> bool {
    ||| directory.len() == 0
    ||| path == directory
    ||| has_prefix(path, directory + seq!['/'])
}

/// Whether `path` is `directory` itself or lies below it.
pub fn within(path: &str, directory: &str) -> (r: bool)
    ensures
        r == inside(path@, directory@),
{
    let p = chars_of(path);
    let d = chars_of(directory);
    if d.len() == 0 {
        return true;
    }
    let mut slashed = d.clone();
    slashed.push('/');
    assert(slashed@ =~= d@ + seq!['/']);
    if vec_has_prefix(&p, &slashed) {
        return true;
    }
    if p.len() != d.len() {
        assert(p@ != d@ + seq!['/'] ==> !has_prefix(p@, d@ + seq!['/']));
        return false;
    }
    let mut i: usize = 0;
    while i < p.len()
        invariant
            i <= p.len(),
            p.len() == d.len(),
            p@ == path@,
            d@ == directory@,
            forall|k: int| 0 <= k < i ==> p@[k] == d@[k],
        decreases p.len() - i,
    {
        if p[i] != d[i] {
            assert(p@[i as int] != d@[i as int]);
            assert(p@ != d@);
            return false;
        }
        i += 1;
    }
    assert(p@ =~= d@);
    true
}

} // verus!
