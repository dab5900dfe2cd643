//! Ordered collections without duplicates: the byte order of UTF-8 strings
//! (code point order of their characters) and the order of integers.

use vstd::prelude::*;
use crate::strs::chars_eq;

verus! {

/// Code point lexicographic order (the byte order of the UTF-8 encodings).
pub open spec fn seq_lt(a: Seq<char>, b: Seq<char>) -> bool
    decreases a.len(),
{
    if a.len() == 0 {
        b.len() > 0
    } else if b.len() == 0 {
        false
    } else if a[0] != b[0] {
        a[0] < b[0]
    } else {
        seq_lt(a.drop_first(), b.drop_first())
    }
}

pub proof fn lemma_seq_lt_irreflexive(a: Seq<char>)
    ensures
        !seq_lt(a, a),
    decreases a.len(),
{
    if a.len() > 0 {
        lemma_seq_lt_irreflexive(a.drop_first());
    }
}

pub proof fn lemma_seq_lt_transitive(a: Seq<char>, b: Seq<char>, c: Seq<char>)
    requires
        seq_lt(a, b),
        seq_lt(b, c),
    ensures
        seq_lt(a, c),
    decreases a.len(),
{
    if a.len() > 0 && b.len() > 0 && c.len() > 0 && a[0] == b[0] && b[0] == c[0] {
        lemma_seq_lt_transitive(a.drop_first(), b.drop_first(), c.drop_first());
    }
}

pub proof fn lemma_seq_lt_total(a: Seq<char>, b: Seq<char>)
    ensures
        a == b || seq_lt(a, b) || seq_lt(b, a),
    decreases a.len(),
{
    if a.len() > 0 && b.len() > 0 && a[0] == b[0] {
        lemma_seq_lt_total(a.drop_first(), b.drop_first());
        if a.drop_first() == b.drop_first() {
            assert forall|k: int| 0 <= k < a.len() implies a[k] == b[k] by {
                if k > 0 {
                    assert(a[k] == a.drop_first()[k - 1]);
                    assert(b[k] == b.drop_first()[k - 1]);
                }
            }
            assert(a =~= b);
        }
    } else if a.len() == 0 && b.len() == 0 {
        assert(a =~= b);
    } else if a.len() > 0 && b.len() > 0 {
    }
}

/// Whether `a` sorts before `b`.
pub fn chars_lt(a: &[char], b: &[char]) -> (r: bool)
    ensures
        r == seq_lt(a@, b@),
{
    let mut i: usize = 0;
    assert(a@.skip(0) =~= a@);
    assert(b@.skip(0) =~= b@);
    while i < a.len() && i < b.len() && a[i] == b[i]
        invariant
            i <= a@.len(),
            i <= b@.len(),
            seq_lt(a@, b@) == seq_lt(a@.skip(i as int), b@.skip(i as int)),
        decreases a.len() - i,
    {
        assert(a@.skip(i as int).drop_first() =~= a@.skip(i + 1));
        assert(b@.skip(i as int).drop_first() =~= b@.skip(i + 1));
        i += 1;
    }
    if i == a.len() {
        i < b.len()
    } else if i == b.len() {
        false
    } else {
        assert(a@.skip(i as int)[0] == a@[i as int]);
        assert(b@.skip(i as int)[0] == b@[i as int]);
        a[i] < b[i]
    }
}

/// Strictly increasing in code point order.
pub open spec fn sorted_strs(s: Seq<Seq<char>>) -> bool {
    forall|i: int, j: int| 0 <= i < j < s.len() ==> seq_lt(#[trigger] s[i], #[trigger] s[j])
}

/// Inserts `x` at its place in a sorted vector, unless it is there already.
pub fn insert_sorted_str(v: &mut Vec<Vec<char>>, x: Vec<char>)
    requires
        sorted_strs(old(v).deep_view()),
    ensures
        sorted_strs(final(v).deep_view()),
        final(v).deep_view().to_set() == old(v).deep_view().to_set().insert(x@),
        final(v)@.len() <= old(v)@.len() + 1,
{
    proof {
        crate::strs::lemma_keys_view(v);
    }
    let ghost xv = x@;
    let ghost old_v = v.deep_view();
    let mut p: usize = 0;
    while p < v.len() && chars_lt(v[p].as_slice(), x.as_slice())
        invariant
            p <= v@.len(),
            old_v == v.deep_view(),
            old_v.len() == v@.len(),
            forall|k: int| 0 <= k < old_v.len() ==> #[trigger] old_v[k] == v@[k]@,
            forall|k: int| 0 <= k < p ==> seq_lt(#[trigger] old_v[k], xv),
            xv == x@,
        decreases v.len() - p,
    {
        p += 1;
    }
    if p < v.len() && chars_eq(v[p].as_slice(), x.as_slice()) {
        assert(old_v.to_set().insert(xv) =~= old_v.to_set()) by {
            assert(old_v.contains(xv)) by {
                assert(old_v[p as int] == xv);
            }
        }
        return;
    }
    proof {
        assert forall|k: int| p <= k < old_v.len() implies seq_lt(xv, #[trigger] old_v[k]) by {
            lemma_seq_lt_total(old_v[p as int], xv);
            if k > p {
                lemma_seq_lt_transitive(xv, old_v[p as int], old_v[k]);
            }
        }
    }
    v.insert(p, x);
    let ghost nv = v.deep_view();
    proof {
        crate::strs::lemma_keys_view(v);
        assert(nv =~= old_v.insert(p as int, xv));
        assert forall|i: int, j: int| 0 <= i < j < nv.len() implies seq_lt(
            #[trigger] nv[i],
            #[trigger] nv[j],
        ) by {
            if j < p {
            } else if i < p && j == p {
            } else if i < p && j > p {
                assert(nv[j] == old_v[j - 1]);
                lemma_seq_lt_transitive(nv[i], xv, nv[j]);
            } else if i == p {
                assert(nv[j] == old_v[j - 1]);
            } else {
                assert(nv[i] == old_v[i - 1]);
                assert(nv[j] == old_v[j - 1]);
            }
        }
        assert forall|y: Seq<char>| #[trigger] nv.to_set().contains(y) <==> old_v.to_set().insert(
            xv,
        ).contains(y) by {
            if nv.contains(y) {
                let k = choose|k: int| 0 <= k < nv.len() && nv[k] == y;
                if k < p {
                    assert(old_v[k] == y);
                } else if k > p {
                    assert(old_v[k - 1] == y);
                }
            }
            if old_v.contains(y) {
                let k = choose|k: int| 0 <= k < old_v.len() && old_v[k] == y;
                if k < p {
                    assert(nv[k] == y);
                } else {
                    assert(nv[k + 1] == y);
                }
            }
            if y == xv {
                assert(nv[p as int] == y);
            }
        }
        assert(nv.to_set() =~= old_v.to_set().insert(xv));
    }
}

/// Strictly increasing integers.
pub open spec fn sorted_u32(s: Seq<u32>) -> bool {
    forall|i: int, j: int| 0 <= i < j < s.len() ==> #[trigger] s[i] < #[trigger] s[j]
}

/// Inserts `x` at its place in a strictly increasing vector, unless present.
pub fn insert_sorted_u32(v: &mut Vec<u32>, x: u32)
    requires
        sorted_u32(old(v)@),
    ensures
        sorted_u32(final(v)@),
        final(v)@.to_set() == old(v)@.to_set().insert(x),
{
    let ghost old_v = v@;
    let mut p: usize = 0;
    while p < v.len() && v[p] < x
        invariant
            p <= v@.len(),
            old_v == v@,
            forall|k: int| 0 <= k < p ==> #[trigger] old_v[k] < x,
        decreases v.len() - p,
    {
        p += 1;
    }
    if p < v.len() && v[p] == x {
        assert(old_v.to_set().insert(x) =~= old_v.to_set()) by {
            assert(old_v.contains(x)) by {
                assert(old_v[p as int] == x);
            }
        }
        return;
    }
    v.insert(p, x);
    let ghost nv = v@;
    proof {
        assert(nv =~= old_v.insert(p as int, x));
        assert forall|i: int, j: int| 0 <= i < j < nv.len() implies #[trigger] nv[i]
            < #[trigger] nv[j] by {
            if j > p {
                assert(nv[j] == old_v[j - 1]);
            }
            if i > p {
                assert(nv[i] == old_v[i - 1]);
            }
            if i < p && j > p {
                assert(old_v[p as int] > x);
            }
        }
        assert forall|y: u32| #[trigger] nv.to_set().contains(y) <==> old_v.to_set().insert(
            x,
        ).contains(y) by {
            if nv.contains(y) {
                let k = choose|k: int| 0 <= k < nv.len() && nv[k] == y;
                if k < p {
                    assert(old_v[k] == y);
                } else if k > p {
                    assert(old_v[k - 1] == y);
                }
            }
            if old_v.contains(y) {
                let k = choose|k: int| 0 <= k < old_v.len() && old_v[k] == y;
                if k < p {
                    assert(nv[k] == y);
                } else {
                    assert(nv[k + 1] == y);
                }
            }
            if y == x {
                assert(nv[p as int] == y);
            }
        }
        assert(nv.to_set() =~= old_v.to_set().insert(x));
    }
}

/// The distinct values of `v`, in increasing order.
pub fn sort_dedup_u32(v: &[u32]) -> (r: Vec<u32>)
    ensures
        sorted_u32(r@),
        r@.to_set() == v@.to_set(),
{
    let mut out: Vec<u32> = Vec::new();
    let mut i: usize = 0;
    assert(v@.take(0).to_set() =~= out@.to_set());
    while i < v.len()
        invariant
            i <= v@.len(),
            sorted_u32(out@),
            out@.to_set() == v@.take(i as int).to_set(),
        decreases v.len() - i,
    {
        insert_sorted_u32(&mut out, v[i]);
        assert(v@.take(i + 1) =~= v@.take(i as int).push(v@[i as int]));
        assert(v@.take(i + 1).to_set() =~= v@.take(i as int).to_set().insert(v@[i as int])) by {
            v@.take(i as int).lemma_push_to_set_commute(v@[i as int]);
        }
        i += 1;
    }
    assert(v@.take(v@.len() as int) =~= v@);
    out
}

} // verus!
