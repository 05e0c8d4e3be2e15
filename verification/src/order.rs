//! The text order of identifiers and sorted lists of them.
use vstd::prelude::*;
use crate::text_util::{seq_lt, str_lt};

verus! {

pub proof fn lemma_lt_irreflexive(a: Seq<char>)
    ensures
        !seq_lt(a, a),
    decreases a.len(),
{
    if a.len() > 0 {
        lemma_lt_irreflexive(a.drop_first());
    }
}

pub proof fn lemma_lt_transitive(a: Seq<char>, b: Seq<char>, c: Seq<char>)
    requires
        seq_lt(a, b),
        seq_lt(b, c),
    ensures
        seq_lt(a, c),
    decreases a.len(),
{
    if a.len() > 0 && b.len() > 0 && c.len() > 0 && a[0] == b[0] && b[0] == c[0] {
        lemma_lt_transitive(a.drop_first(), b.drop_first(), c.drop_first());
    }
}

pub proof fn lemma_lt_total(a: Seq<char>, b: Seq<char>)
    requires
        a != b,
    ensures
        seq_lt(a, b) || seq_lt(b, a),
    decreases a.len(),
{
    if a.len() > 0 && b.len() > 0 && a[0] == b[0] {
        if a.drop_first() == b.drop_first() {
            assert(a =~= seq![a[0]] + a.drop_first());
            assert(b =~= seq![b[0]] + b.drop_first());
        }
        lemma_lt_total(a.drop_first(), b.drop_first());
    } else if a.len() == 0 && b.len() == 0 {
        assert(a =~= b);
    }
}

pub proof fn lemma_lt_asymmetric(a: Seq<char>, b: Seq<char>)
    requires
        seq_lt(a, b),
    ensures
        !seq_lt(b, a),
{
    if seq_lt(b, a) {
        lemma_lt_transitive(a, b, a);
        lemma_lt_irreflexive(a);
    }
}

/// Each identifier comes strictly before every later one.
pub open spec fn strictly_sorted(s: Seq<Seq<char>>) -> bool {
    forall|i: int, j: int| 0 <= i < j < s.len() ==> seq_lt(#[trigger] s[i], #[trigger] s[j])
}

/// The texts of a list of strings.
pub open spec fn texts(v: Seq<String>) -> Seq<Seq<char>> {
    v.map_values(|s: String| s@)
}

/// Inserts `x` into a strictly sorted list that does not hold it yet.
pub fn insert_sorted(v: &mut Vec<String>, x: String)
    requires
        strictly_sorted(texts(old(v)@)),
        !texts(old(v)@).contains(x@),
    ensures
        strictly_sorted(texts(final(v)@)),
        texts(final(v)@).to_set() == texts(old(v)@).to_set().insert(x@),
        final(v)@.len() == old(v)@.len() + 1,
{
    let ghost old_t = texts(v@);
    let mut lo: usize = 0;
    let mut hi: usize = v.len();
    while lo < hi
        invariant
            0 <= lo <= hi <= v.len(),
            v@ == old(v)@,
            old_t == texts(v@),
            strictly_sorted(old_t),
            !old_t.contains(x@),
            forall|i: int| 0 <= i < lo ==> seq_lt(#[trigger] old_t[i], x@),
            forall|i: int| hi <= i < v.len() ==> seq_lt(x@, #[trigger] old_t[i]),
        decreases hi - lo,
    {
        let mid = lo + (hi - lo) / 2;
        assert(old_t[mid as int] == v@[mid as int]@);
        if str_lt(v[mid].as_str(), x.as_str()) {
            proof {
                assert forall|i: int| 0 <= i < mid + 1 implies seq_lt(#[trigger] old_t[i], x@) by {
                    if i < mid {
                        lemma_lt_transitive(old_t[i], old_t[mid as int], x@);
                    }
                }
            }
            lo = mid + 1;
        } else {
            proof {
                assert(old_t[mid as int] != x@) by {
                    if old_t[mid as int] == x@ {
                        assert(old_t.contains(x@));
                    }
                }
                lemma_lt_total(old_t[mid as int], x@);
                assert forall|i: int| mid <= i < v.len() implies seq_lt(x@, #[trigger] old_t[i]) by {
                    if i > mid {
                        lemma_lt_transitive(x@, old_t[mid as int], old_t[i]);
                    }
                }
            }
            hi = mid;
        }
    }
    let ghost xv = x@;
    v.insert(lo, x);
    proof {
        let t = texts(v@);
        assert(t =~= old_t.insert(lo as int, xv));
        assert forall|i: int, j: int| 0 <= i < j < t.len() implies seq_lt(#[trigger] t[i], #[trigger] t[j]) by {
            if j < lo {
            } else if j == lo {
            } else if i < lo {
                assert(t[j] == old_t[j - 1]);
                lemma_lt_transitive(t[i], xv, t[j]);
            } else if i == lo {
            } else {
                assert(t[i] == old_t[i - 1]);
                assert(t[j] == old_t[j - 1]);
            }
        }
        assert forall|s: Seq<char>| t.to_set().contains(s) <==> old_t.to_set().insert(xv).contains(s) by {
            if t.to_set().contains(s) {
                let k = choose|k: int| 0 <= k < t.len() && t[k] == s;
                if k < lo {
                    assert(old_t[k] == s);
                } else if k > lo {
                    assert(old_t[k - 1] == s);
                }
            }
            if old_t.to_set().contains(s) && s != xv {
                let k = choose|k: int| 0 <= k < old_t.len() && old_t[k] == s;
                if k < lo {
                    assert(t[k] == s);
                } else {
                    assert(t[k + 1] == s);
                }
            }
            if s == xv {
                assert(t[lo as int] == s);
            }
        }
        assert(t.to_set() =~= old_t.to_set().insert(xv));
    }
}

} // verus!
