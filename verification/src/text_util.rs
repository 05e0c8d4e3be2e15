//! Character-level helpers shared by the analyzers.
use vstd::prelude::*;
use crate::analysis::{is_white, white_space};

verus! {

/// Lexicographic order on character sequences, comparing code points.
/// For UTF-8 text this is the same order as Rust's byte-wise `str` order.
pub open spec fn seq_lt(a: Seq<char>, b: Seq<char>) -> bool
    decreases a.len(),
{
    if b.len() == 0 {
        false
    } else if a.len() == 0 {
        true
    } else if a[0] < b[0] {
        true
    } else if a[0] == b[0] {
        seq_lt(a.drop_first(), b.drop_first())
    } else {
        false
    }
}

/// `s` begins with `p`.
pub open spec fn has_prefix(s: Seq<char>, p: Seq<char>) -> bool {
    p.len() <= s.len() && s.subrange(0, p.len() as int) == p
}

/// `s` ends with `p`.
pub open spec fn has_suffix(s: Seq<char>, p: Seq<char>) -> bool {
    p.len() <= s.len() && s.subrange(s.len() - p.len(), s.len() as int) == p
}

/// The pieces of `s` between occurrences of `c`, empty pieces included
/// (the behaviour of `str::split` with a character pattern).
pub open spec fn split_on(s: Seq<char>, c: char) -> Seq<Seq<char>>
    decreases s.len(),
{
    match last_index(s, c) {
        None => seq![s],
        Some(i) => if 0 <= i < s.len() {
            split_on(s.subrange(0, i), c).push(s.subrange(i + 1, s.len() as int))
        } else {
            seq![s]
        },
    }
}

/// The pieces joined with the separator `c` between consecutive pieces.
pub open spec fn join_with(parts: Seq<Seq<char>>, c: char) -> Seq<char>
    decreases parts.len(),
{
    if parts.len() == 0 {
        Seq::empty()
    } else if parts.len() == 1 {
        parts[0]
    } else {
        join_with(parts.drop_last(), c) + seq![c] + parts.last()
    }
}

/// The index of the last occurrence of `c` in `s`.
pub open spec fn last_index(s: Seq<char>, c: char) -> Option<int>
    decreases s.len(),
{
    if s.len() == 0 {
        None
    } else if s.last() == c {
        Some(s.len() - 1)
    } else {
        last_index(s.drop_last(), c)
    }
}

/// Everything before the last `c`, or the empty sequence when there is none
/// (`s.rsplit_once(c).map(|(head, _)| head).unwrap_or("")`).
pub open spec fn before_last(s: Seq<char>, c: char) -> Seq<char> {
    match last_index(s, c) {
        Some(i) => s.subrange(0, i),
        None => Seq::empty(),
    }
}

/// Everything after the last `c`, or the whole sequence when there is none
/// (`s.rsplit(c).next()`).
pub open spec fn after_last(s: Seq<char>, c: char) -> Seq<char> {
    match last_index(s, c) {
        Some(i) => s.subrange(i + 1, s.len() as int),
        None => s,
    }
}

pub proof fn lemma_last_index(s: Seq<char>, c: char)
    ensures
        match last_index(s, c) {
            Some(i) => 0 <= i < s.len() && s[i] == c && forall|j: int|
                i < j < s.len() ==> s[j] != c,
            None => forall|j: int| 0 <= j < s.len() ==> s[j] != c,
        },
    decreases s.len(),
{
    if s.len() > 0 && s.last() != c {
        lemma_last_index(s.drop_last(), c);
        assert(forall|j: int| 0 <= j < s.len() - 1 ==> s.drop_last()[j] == s[j]);
    }
}

/// Appending one character to a split either starts a new piece or extends the last one.
pub proof fn lemma_split_push(s: Seq<char>, x: char, c: char)
    ensures
        split_on(s, c).len() >= 1,
        split_on(s.push(x), c) == if x == c {
            split_on(s, c).push(Seq::<char>::empty())
        } else {
            split_on(s, c).update(
                split_on(s, c).len() - 1,
                split_on(s, c).last().push(x),
            )
        },
    decreases s.len(),
{
    let t = s.push(x);
    lemma_last_index(s, c);
    lemma_last_index(t, c);
    assert(t.drop_last() =~= s);
    if x == c {
        assert(t.subrange(0, s.len() as int) =~= s);
        assert(t.subrange(s.len() as int + 1, t.len() as int) =~= Seq::<char>::empty());
        match last_index(s, c) {
            None => {},
            Some(i) => {
                lemma_split_push(s.subrange(0, i), s[i], c);
            },
        }
    } else {
        assert(last_index(t, c) == last_index(s, c));
        match last_index(s, c) {
            None => {},
            Some(i) => {
                assert(t.subrange(0, i) =~= s.subrange(0, i));
                assert(t.subrange(i + 1, t.len() as int) =~= s.subrange(i + 1, s.len() as int).push(x));
                lemma_split_push(s.subrange(0, i), s[i], c);
            },
        }
    }
}

/// The characters of a string slice, in order.
pub fn chars_of(s: &str) -> (r: Vec<char>)
    ensures
        r@ == s@,
{
    let mut r: Vec<char> = Vec::new();
    for c in it: s.chars()
        invariant
            it.seq() == s@,
            r@ == s@.take(it.index() as int),
    {
        r.push(c);
    }
    assert(r@ == s@);
    r
}

/// Appends a character to a string.
#[verifier::external_body]
pub fn push_char(s: &mut String, c: char)
    ensures
        final(s)@ == old(s)@.push(c),
{
    s.push(c);
}

/// A string holding the given characters.
pub fn string_of(v: &Vec<char>) -> (r: String)
    ensures
        r@ == v@,
{
    let mut r = String::new();
    let mut i: usize = 0;
    while i < v.len()
        invariant
            i <= v.len(),
            r@ == v@.take(i as int),
        decreases v.len() - i,
    {
        push_char(&mut r, v[i]);
        i += 1;
        assert(r@ =~= v@.take(i as int));
    }
    assert(v@.take(v.len() as int) =~= v@);
    r
}

/// Whether `a` sorts before `b` in Rust's `str` order.
#[verifier::external_body]
pub fn str_lt(a: &str, b: &str) -> (r: bool)
    ensures
        r == seq_lt(a@, b@),
{
    a < b
}

/// Whether two string slices hold the same text.
#[verifier::external_body]
pub fn str_eq(a: &str, b: &str) -> (r: bool)
    ensures
        r == (a@ == b@),
{
    a == b
}

/// A copy of a string slice as an owned string.
pub fn owned(s: &str) -> (r: String)
    ensures
        r@ == s@,
{
    s.to_string()
}

/// Whether `v` begins with `p`.
pub fn vec_has_prefix(v: &Vec<char>, p: &Vec<char>) -> (r: bool)
    ensures
        r == has_prefix(v@, p@),
{
    if p.len() > v.len() {
        return false;
    }
    let mut i: usize = 0;
    while i < p.len()
        invariant
            p.len() <= v.len(),
            i <= p.len(),
            forall|j: int| 0 <= j < i ==> v@[j] == p@[j],
        decreases p.len() - i,
    {
        if v[i] != p[i] {
            assert(v@.subrange(0, p.len() as int)[i as int] != p@[i as int]);
            return false;
        }
        i += 1;
    }
    assert(v@.subrange(0, p.len() as int) =~= p@);
    true
}

/// Whether `v` ends with `p`.
pub fn vec_has_suffix(v: &Vec<char>, p: &Vec<char>) -> (r: bool)
    ensures
        r == has_suffix(v@, p@),
{
    if p.len() > v.len() {
        return false;
    }
    let off = v.len() - p.len();
    let mut i: usize = 0;
    while i < p.len()
        invariant
            p.len() <= v.len(),
            off == v.len() - p.len(),
            i <= p.len(),
            forall|j: int| 0 <= j < i ==> v@[off + j] == p@[j],
        decreases p.len() - i,
    {
        if v[off + i] != p[i] {
            assert(v@.subrange(off as int, v.len() as int)[i as int] != p@[i as int]);
            return false;
        }
        i += 1;
    }
    assert(v@.subrange(off as int, v.len() as int) =~= p@);
    true
}

/// Whether `v` holds the character `c`.
pub fn vec_contains(v: &Vec<char>, c: char) -> (r: bool)
    ensures
        r == v@.contains(c),
{
    let mut i: usize = 0;
    while i < v.len()
        invariant
            i <= v.len(),
            forall|j: int| 0 <= j < i ==> v@[j] != c,
        decreases v.len() - i,
    {
        if v[i] == c {
            return true;
        }
        i += 1;
    }
    false
}

/// The index of the last occurrence of `c` in `v`.
pub fn vec_last_index(v: &Vec<char>, c: char) -> (r: Option<usize>)
    ensures
        match r {
            Some(i) => last_index(v@, c) == Some(i as int),
            None => last_index(v@, c) is None,
        },
{
    let mut i = v.len();
    assert(v@.take(i as int) =~= v@);
    while i > 0
        invariant
            i <= v.len(),
            last_index(v@, c) == last_index(v@.take(i as int), c),
        decreases i,
    {
        if v[i - 1] == c {
            return Some(i - 1);
        }
        assert(v@.take(i as int).drop_last() =~= v@.take(i - 1));
        i -= 1;
    }
    assert(v@.take(i as int) =~= Seq::<char>::empty());
    None
}

/// The characters `v[from..to]`.
pub fn vec_slice(v: &Vec<char>, from: usize, to: usize) -> (r: Vec<char>)
    requires
        from <= to <= v.len(),
    ensures
        r@ == v@.subrange(from as int, to as int),
{
    let mut r: Vec<char> = Vec::new();
    let mut i = from;
    while i < to
        invariant
            from <= i <= to <= v.len(),
            r@ == v@.subrange(from as int, i as int),
        decreases to - i,
    {
        r.push(v[i]);
        i += 1;
        assert(r@ =~= v@.subrange(from as int, i as int));
    }
    r
}

/// `v[..last '/']`, or empty when `v` has no `c`.
pub fn vec_before_last(v: &Vec<char>, c: char) -> (r: Vec<char>)
    ensures
        r@ == before_last(v@, c),
{
    proof {
        lemma_last_index(v@, c);
    }
    match vec_last_index(v, c) {
        Some(i) => vec_slice(v, 0, i),
        None => Vec::new(),
    }
}

/// `v` after its last `c`, or all of `v` when it has none.
pub fn vec_after_last(v: &Vec<char>, c: char) -> (r: Vec<char>)
    ensures
        r@ == after_last(v@, c),
{
    proof {
        lemma_last_index(v@, c);
    }
    match vec_last_index(v, c) {
        Some(i) => {
            assert(i < v.len());
            vec_slice(v, i + 1, v.len())
        },
        None => vec_slice(v, 0, v.len()),
    }
}

/// The concatenation `a + b`.
pub fn vec_concat(a: &Vec<char>, b: &Vec<char>) -> (r: Vec<char>)
    ensures
        r@ == a@ + b@,
{
    let mut r = a.clone();
    let mut i: usize = 0;
    while i < b.len()
        invariant
            i <= b.len(),
            r@ == a@ + b@.take(i as int),
        decreases b.len() - i,
    {
        r.push(b[i]);
        i += 1;
        assert(r@ =~= a@ + b@.take(i as int));
    }
    assert(b@.take(b.len() as int) =~= b@);
    r
}

/// Splits `v` at every `c`, keeping empty pieces.
pub fn vec_split(v: &Vec<char>, c: char) -> (r: Vec<Vec<char>>)
    ensures
        r@.map_values(|p: Vec<char>| p@) == split_on(v@, c),
{
    let mut r: Vec<Vec<char>> = Vec::new();
    let mut cur: Vec<char> = Vec::new();
    let mut i: usize = 0;
    proof {
        assert(v@.take(0) =~= Seq::<char>::empty());
        assert(split_on(v@.take(0), c) =~= seq![Seq::<char>::empty()]);
    }
    while i < v.len()
        invariant
            i <= v.len(),
            r@.map_values(|p: Vec<char>| p@).push(cur@) == split_on(v@.take(i as int), c),
        decreases v.len() - i,
    {
        proof {
            lemma_split_push(v@.take(i as int), v@[i as int], c);
            assert(v@.take(i + 1) =~= v@.take(i as int).push(v@[i as int]));
        }
        if v[i] == c {
            let piece = cur;
            cur = Vec::new();
            r.push(piece);
            proof {
                let m = r@.map_values(|p: Vec<char>| p@);
                assert(m.push(cur@) =~= split_on(v@.take(i + 1), c));
            }
        } else {
            cur.push(v[i]);
            proof {
                let m = r@.map_values(|p: Vec<char>| p@);
                assert(m.push(cur@) =~= split_on(v@.take(i + 1), c));
            }
        }
        i += 1;
    }
    let ghost m = r@.map_values(|p: Vec<char>| p@);
    r.push(cur);
    proof {
        assert(v@.take(v.len() as int) =~= v@);
        assert(r@.map_values(|p: Vec<char>| p@) =~= m.push(r@.last()@));
    }
    r
}

/// The pieces of `parts` that are not empty, in order.
pub open spec fn nonempty(parts: Seq<Seq<char>>) -> Seq<Seq<char>>
    decreases parts.len(),
{
    if parts.len() == 0 {
        Seq::empty()
    } else if parts.last().len() == 0 {
        nonempty(parts.drop_last())
    } else {
        nonempty(parts.drop_last()).push(parts.last())
    }
}

/// The view of every piece of a vector of character vectors.
pub open spec fn views(v: Seq<Vec<char>>) -> Seq<Seq<char>> {
    v.map_values(|p: Vec<char>| p@)
}

/// Joins the pieces with `c` between consecutive pieces.
pub fn vec_join(parts: &Vec<Vec<char>>, c: char) -> (r: Vec<char>)
    ensures
        r@ == join_with(views(parts@), c),
{
    let mut r: Vec<char> = Vec::new();
    let mut i: usize = 0;
    while i < parts.len()
        invariant
            i <= parts.len(),
            r@ == join_with(views(parts@).take(i as int), c),
        decreases parts.len() - i,
    {
        let ghost before = views(parts@).take(i as int);
        proof {
            assert(views(parts@).take(i + 1).drop_last() =~= before);
        }
        if i > 0 {
            r.push(c);
        }
        let piece = &parts[i];
        let mut j: usize = 0;
        let ghost start = r@;
        while j < piece.len()
            invariant
                j <= piece.len(),
                r@ == start + piece@.take(j as int),
            decreases piece.len() - j,
        {
            r.push(piece[j]);
            j += 1;
            assert(r@ =~= start + piece@.take(j as int));
        }
        proof {
            assert(piece@.take(piece.len() as int) =~= piece@);
            assert(views(parts@)[i as int] == piece@);
            if i == 0 {
                assert(r@ =~= join_with(views(parts@).take(1), c));
            } else {
                assert(r@ =~= join_with(views(parts@).take(i + 1), c));
            }
        }
        i += 1;
    }
    assert(views(parts@).take(parts.len() as int) =~= views(parts@));
    r
}

/// The pieces of `parts` that are not empty, in order.
pub fn drop_empty(parts: Vec<Vec<char>>) -> (r: Vec<Vec<char>>)
    ensures
        views(r@) == nonempty(views(parts@)),
{
    let mut r: Vec<Vec<char>> = Vec::new();
    let mut i: usize = 0;
    while i < parts.len()
        invariant
            i <= parts.len(),
            views(r@) == nonempty(views(parts@).take(i as int)),
        decreases parts.len() - i,
    {
        proof {
            assert(views(parts@).take(i + 1).drop_last() =~= views(parts@).take(i as int));
            assert(views(parts@).take(i + 1).last() == parts@[i as int]@);
        }
        if parts[i].len() > 0 {
            r.push(parts[i].clone());
            assert(views(r@) =~= nonempty(views(parts@).take(i as int)).push(parts@[i as int]@));
        }
        i += 1;
    }
    assert(views(parts@).take(parts.len() as int) =~= views(parts@));
    r
}

/// A one- or two-character prefix is a test of the first characters.
pub proof fn lemma_short_prefix(s: Seq<char>, a: char, b: char)
    ensures
        has_prefix(s, seq![a]) <==> (s.len() >= 1 && s[0] == a),
        has_prefix(s, seq![a, b]) <==> (s.len() >= 2 && s[0] == a && s[1] == b),
{
    if s.len() >= 1 && s[0] == a {
        assert(s.subrange(0, 1) =~= seq![a]);
    }
    if s.len() >= 2 && s[0] == a && s[1] == b {
        assert(s.subrange(0, 2) =~= seq![a, b]);
    }
    if has_prefix(s, seq![a]) {
        assert(s.subrange(0, 1)[0] == a);
    }
    if has_prefix(s, seq![a, b]) {
        assert(s.subrange(0, 2)[0] == a);
        assert(s.subrange(0, 2)[1] == b);
    }
}

/// The index of the first `c` in `s`.
pub open spec fn first_index(s: Seq<char>, c: char) -> Option<int>
    decreases s.len(),
{
    if s.len() == 0 {
        None
    } else if s[0] == c {
        Some(0)
    } else {
        match first_index(s.drop_first(), c) {
            Some(i) => Some(i + 1),
            None => None,
        }
    }
}

pub proof fn lemma_first_index(s: Seq<char>, c: char)
    ensures
        first_index(s, c) matches Some(i) ==> 0 <= i < s.len() && s[i] == c && forall|j: int|
            0 <= j < i ==> s[j] != c,
        first_index(s, c) is None ==> forall|j: int| 0 <= j < s.len() ==> s[j] != c,
    decreases s.len(),
{
    if s.len() > 0 && s[0] != c {
        lemma_first_index(s.drop_first(), c);
        if let Some(i) = first_index(s.drop_first(), c) {
            assert forall|j: int| 0 <= j < i + 1 implies s[j] != c by {
                if j > 0 {
                    assert(s[j] == s.drop_first()[j - 1]);
                }
            }
        } else {
            assert forall|j: int| 0 <= j < s.len() implies s[j] != c by {
                if j > 0 {
                    assert(s[j] == s.drop_first()[j - 1]);
                }
            }
        }
    }
}


/// `v` with white space removed from both ends (`str::trim`).
pub open spec fn trimmed(s: Seq<char>) -> Seq<char> {
    trim_end(trim_start(s))
}

/// `s` without leading white space.
pub open spec fn trim_start(s: Seq<char>) -> Seq<char>
    decreases s.len(),
{
    if s.len() > 0 && white_space(s[0]) {
        trim_start(s.subrange(1, s.len() as int))
    } else {
        s
    }
}

/// `s` without trailing white space.
pub open spec fn trim_end(s: Seq<char>) -> Seq<char>
    decreases s.len(),
{
    if s.len() > 0 && white_space(s.last()) {
        trim_end(s.drop_last())
    } else {
        s
    }
}

/// `v` with white space removed from both ends.
pub fn vec_trim(v: &Vec<char>) -> (r: Vec<char>)
    ensures
        r@ == trimmed(v@),
{
    let mut i: usize = 0;
    assert(v@.subrange(0, v.len() as int) =~= v@);
    while i < v.len() && is_white(v[i])
        invariant
            i <= v.len(),
            trim_start(v@.subrange(i as int, v.len() as int)) == trim_start(v@),
        decreases v.len() - i,
    {
        assert(v@.subrange(i as int, v.len() as int).subrange(1, v.len() - i) =~= v@.subrange(
            i + 1,
            v.len() as int,
        ));
        i += 1;
    }
    proof {
        assert(trim_start(v@) == v@.subrange(i as int, v.len() as int));
    }
    let mut j: usize = v.len();
    while j > i && is_white(v[j - 1])
        invariant
            i <= j <= v.len(),
            trim_end(v@.subrange(i as int, j as int)) == trim_end(trim_start(v@)),
        decreases j - i,
    {
        assert(v@.subrange(i as int, j as int).drop_last() =~= v@.subrange(i as int, j - 1));
        j -= 1;
    }
    vec_slice(v, i, j)
}

/// Whether the two vectors hold the same characters.
pub fn vec_same(a: &Vec<char>, b: &Vec<char>) -> (r: bool)
    ensures
        r == (a@ == b@),
{
    if a.len() != b.len() {
        return false;
    }
    let mut i: usize = 0;
    while i < a.len()
        invariant
            i <= a.len(),
            a.len() == b.len(),
            forall|k: int| 0 <= k < i ==> a@[k] == b@[k],
        decreases a.len() - i,
    {
        if a[i] != b[i] {
            assert(a@[i as int] != b@[i as int]);
            return false;
        }
        i += 1;
    }
    assert(a@ =~= b@);
    true
}

/// The position of the first `c` in `v`.
pub fn vec_first_index(v: &Vec<char>, c: char) -> (r: Option<usize>)
    ensures
        match r {
            Some(i) => first_index(v@, c) == Some(i as int),
            None => first_index(v@, c) is None,
        },
{
    proof {
        lemma_first_index(v@, c);
    }
    let mut i: usize = 0;
    while i < v.len()
        invariant
            i <= v.len(),
            forall|k: int| 0 <= k < i ==> v@[k] != c,
            first_index(v@, c) matches Some(f) ==> 0 <= f < v.len() && v@[f] == c && forall|k: int| 0 <= k < f ==> v@[k] != c,
            first_index(v@, c) is None ==> forall|k: int| 0 <= k < v.len() ==> v@[k] != c,
        decreases v.len() - i,
    {
        if v[i] == c {
            return Some(i);
        }
        i += 1;
    }
    None
}

} // verus!
