//! Stable descending ranking shared by the similarity search and the
//! fusion ranker.
//!
//! `sort_desc` is a stable insertion sort at the specification level:
//! elements are taken left to right, and each is placed after every earlier
//! element whose key is at least its own.  Ties therefore keep their
//! original order, which the ranking contracts rely on.

use vstd::prelude::*;

verus! {

/// `x` placed into `s` after every leading element whose key is at least
/// `key(x)`.
pub open spec fn insert_desc<T>(s: Seq<T>, x: T, key: spec_fn(T) -> int) -> Seq<T>
    decreases s.len(),
{
    if s.len() == 0 {
        seq![x]
    } else if key(s[0]) >= key(x) {
        seq![s[0]] + insert_desc(s.drop_first(), x, key)
    } else {
        seq![x] + s
    }
}

/// Stable sort by non-increasing key.
pub open spec fn sort_desc<T>(s: Seq<T>, key: spec_fn(T) -> int) -> Seq<T>
    decreases s.len(),
{
    if s.len() == 0 {
        Seq::empty()
    } else {
        insert_desc(sort_desc(s.drop_last(), key), s.last(), key)
    }
}

pub open spec fn sorted_desc<T>(s: Seq<T>, key: spec_fn(T) -> int) -> bool {
    forall|i: int, j: int| 0 <= i < j < s.len() ==> key(s[i]) >= key(s[j])
}

/// `insert_desc` splits `s` at the first position whose key is below
/// `key(x)` and puts `x` there.
pub proof fn lemma_insert_desc_at<T>(s: Seq<T>, x: T, key: spec_fn(T) -> int, p: int)
    requires
        0 <= p <= s.len(),
        forall|i: int| 0 <= i < p ==> key(s[i]) >= key(x),
        p < s.len() ==> key(s[p]) < key(x),
    ensures
        insert_desc(s, x, key) == s.subrange(0, p) + seq![x] + s.subrange(p, s.len() as int),
    decreases s.len(),
{
    if p == 0 {
        if s.len() == 0 {
            assert(insert_desc(s, x, key) =~= s.subrange(0, 0) + seq![x] + s.subrange(0, 0));
        } else {
            assert(key(s[0]) < key(x));
            assert(insert_desc(s, x, key) =~= s.subrange(0, 0) + seq![x] + s.subrange(
                0,
                s.len() as int,
            ));
        }
    } else {
        assert(key(s[0]) >= key(x));
        let s0 = s.drop_first();
        assert(forall|i: int| 0 <= i < p - 1 ==> key(#[trigger] s0[i]) >= key(x));
        lemma_insert_desc_at(s0, x, key, p - 1);
        assert(insert_desc(s, x, key) == seq![s[0]] + insert_desc(s0, x, key));
        assert(seq![s[0]] + (s0.subrange(0, p - 1) + seq![x] + s0.subrange(p - 1, s0.len() as int))
            =~= s.subrange(0, p) + seq![x] + s.subrange(p, s.len() as int));
    }
}

/// Every element of the insertion result is `x` or one of the elements of
/// `s`, and the lengths add up.
pub proof fn lemma_insert_desc_elems<T>(s: Seq<T>, x: T, key: spec_fn(T) -> int)
    ensures
        insert_desc(s, x, key).len() == s.len() + 1,
        forall|i: int|
            0 <= i < insert_desc(s, x, key).len() ==> insert_desc(s, x, key)[i] == x
                || s.contains(#[trigger] insert_desc(s, x, key)[i]),
    decreases s.len(),
{
    if s.len() != 0 && key(s[0]) >= key(x) {
        let s0 = s.drop_first();
        lemma_insert_desc_elems(s0, x, key);
        let ins = insert_desc(s, x, key);
        assert forall|i: int| 0 <= i < ins.len() implies ins[i] == x || s.contains(
            #[trigger] ins[i],
        ) by {
            if i == 0 {
                assert(s[0] == ins[0]);
                assert(s.contains(s[0]));
            } else {
                let ins0 = insert_desc(s0, x, key);
                assert(ins[i] == ins0[i - 1]);
                if ins0[i - 1] != x {
                    assert(s0.contains(ins0[i - 1]));
                    let k = choose|k: int| 0 <= k < s0.len() && s0[k] == ins0[i - 1];
                    assert(s[k + 1] == ins0[i - 1]);
                }
            }
        }
    }
}

/// Inserting into a sorted sequence keeps it sorted.
pub proof fn lemma_insert_desc_sorted<T>(s: Seq<T>, x: T, key: spec_fn(T) -> int)
    requires
        sorted_desc(s, key),
    ensures
        sorted_desc(insert_desc(s, x, key), key),
    decreases s.len(),
{
    let ins = insert_desc(s, x, key);
    if s.len() == 0 {
    } else if key(s[0]) >= key(x) {
        let s0 = s.drop_first();
        assert(sorted_desc(s0, key)) by {
            assert(forall|i: int, j: int|
                0 <= i < j < s0.len() ==> key(#[trigger] s0[i]) >= key(#[trigger] s0[j]));
        }
        lemma_insert_desc_sorted(s0, x, key);
        lemma_insert_desc_elems(s0, x, key);
        let ins0 = insert_desc(s0, x, key);
        assert forall|i: int, j: int| 0 <= i < j < ins.len() implies key(#[trigger] ins[i]) >= key(
            #[trigger] ins[j],
        ) by {
            if i == 0 {
                assert(ins[0] == s[0]);
                assert(ins[j] == ins0[j - 1]);
                if ins0[j - 1] == x {
                } else {
                    assert(s0.contains(ins0[j - 1]));
                    let k = choose|k: int| 0 <= k < s0.len() && s0[k] == ins0[j - 1];
                    assert(key(s[0]) >= key(s[k + 1]));
                }
            } else {
                assert(ins[i] == ins0[i - 1] && ins[j] == ins0[j - 1]);
            }
        }
    } else {
        assert forall|i: int, j: int| 0 <= i < j < ins.len() implies key(#[trigger] ins[i]) >= key(
            #[trigger] ins[j],
        ) by {
            if i == 0 {
                assert(ins[0] == x && ins[j] == s[j - 1]);
                if j - 1 > 0 {
                    assert(key(s[0]) >= key(s[j - 1]));
                }
            } else {
                assert(ins[i] == s[i - 1] && ins[j] == s[j - 1]);
            }
        }
    }
}

/// The sorted sequence: same length, sorted by non-increasing key.
pub proof fn lemma_sort_desc_sorted<T>(s: Seq<T>, key: spec_fn(T) -> int)
    ensures
        sort_desc(s, key).len() == s.len(),
        sorted_desc(sort_desc(s, key), key),
    decreases s.len(),
{
    if s.len() != 0 {
        let s0 = s.drop_last();
        lemma_sort_desc_sorted(s0, key);
        lemma_insert_desc_sorted(sort_desc(s0, key), s.last(), key);
        lemma_insert_desc_elems(sort_desc(s0, key), s.last(), key);
    }
}

/// Sorting an already sorted sequence changes nothing: the stable sort is
/// the identity there.
pub proof fn lemma_sort_desc_of_sorted<T>(s: Seq<T>, key: spec_fn(T) -> int)
    requires
        sorted_desc(s, key),
    ensures
        sort_desc(s, key) == s,
    decreases s.len(),
{
    if s.len() != 0 {
        let s0 = s.drop_last();
        assert(sorted_desc(s0, key)) by {
            assert(forall|i: int, j: int|
                0 <= i < j < s0.len() ==> key(#[trigger] s0[i]) >= key(#[trigger] s0[j]));
        }
        lemma_sort_desc_of_sorted(s0, key);
        assert(forall|i: int| 0 <= i < s0.len() ==> key(#[trigger] s0[i]) >= key(s.last()));
        lemma_insert_desc_at(s0, s.last(), key, s0.len() as int);
        assert(s0.subrange(0, s0.len() as int) + seq![s.last()] + s0.subrange(
            s0.len() as int,
            s0.len() as int,
        ) =~= s);
    }
}

/// Two sequences whose elements correspond pairwise under a key-preserving
/// relation stay pairwise related after inserting related elements.
pub proof fn lemma_insert_desc_parallel<T, U>(
    a: Seq<T>,
    b: Seq<U>,
    x: T,
    y: U,
    ka: spec_fn(T) -> int,
    kb: spec_fn(U) -> int,
    rel: spec_fn(T, U) -> bool,
)
    requires
        a.len() == b.len(),
        forall|i: int| 0 <= i < a.len() ==> rel(#[trigger] a[i], b[i]),
        forall|i: int| 0 <= i < a.len() ==> ka(#[trigger] a[i]) == kb(b[i]),
        rel(x, y),
        ka(x) == kb(y),
    ensures
        insert_desc(a, x, ka).len() == insert_desc(b, y, kb).len(),
        forall|i: int|
            0 <= i < insert_desc(a, x, ka).len() ==> rel(
                #[trigger] insert_desc(a, x, ka)[i],
                insert_desc(b, y, kb)[i],
            ),
        forall|i: int|
            0 <= i < insert_desc(a, x, ka).len() ==> ka(#[trigger] insert_desc(a, x, ka)[i]) == kb(
                insert_desc(b, y, kb)[i],
            ),
    decreases a.len(),
{
    lemma_insert_desc_elems(a, x, ka);
    lemma_insert_desc_elems(b, y, kb);
    if a.len() == 0 {
    } else if ka(a[0]) >= ka(x) {
        assert(kb(b[0]) >= kb(y));
        let a0 = a.drop_first();
        let b0 = b.drop_first();
        assert(forall|i: int| 0 <= i < a0.len() ==> rel(#[trigger] a0[i], b0[i]));
        assert(forall|i: int| 0 <= i < a0.len() ==> ka(#[trigger] a0[i]) == kb(b0[i]));
        lemma_insert_desc_parallel(a0, b0, x, y, ka, kb, rel);
        let insa = insert_desc(a, x, ka);
        let insb = insert_desc(b, y, kb);
        assert forall|i: int| 0 <= i < insa.len() implies rel(#[trigger] insa[i], insb[i]) && ka(
            insa[i],
        ) == kb(insb[i]) by {
            if i == 0 {
                assert(insa[0] == a[0] && insb[0] == b[0]);
            } else {
                assert(insa[i] == insert_desc(a0, x, ka)[i - 1]);
                assert(insb[i] == insert_desc(b0, y, kb)[i - 1]);
            }
        }
    } else {
        assert(kb(b[0]) < kb(y));
        let insa = insert_desc(a, x, ka);
        let insb = insert_desc(b, y, kb);
        assert forall|i: int| 0 <= i < insa.len() implies rel(#[trigger] insa[i], insb[i]) && ka(
            insa[i],
        ) == kb(insb[i]) by {
            if i == 0 {
                assert(insa[0] == x && insb[0] == y);
            } else {
                assert(insa[i] == a[i - 1] && insb[i] == b[i - 1]);
            }
        }
    }
}

/// Sorting two pairwise related sequences keeps them pairwise related.
pub proof fn lemma_sort_desc_parallel<T, U>(
    a: Seq<T>,
    b: Seq<U>,
    ka: spec_fn(T) -> int,
    kb: spec_fn(U) -> int,
    rel: spec_fn(T, U) -> bool,
)
    requires
        a.len() == b.len(),
        forall|i: int| 0 <= i < a.len() ==> rel(#[trigger] a[i], b[i]),
        forall|i: int| 0 <= i < a.len() ==> ka(#[trigger] a[i]) == kb(b[i]),
    ensures
        sort_desc(a, ka).len() == sort_desc(b, kb).len(),
        sort_desc(a, ka).len() == a.len(),
        forall|i: int|
            0 <= i < a.len() ==> rel(#[trigger] sort_desc(a, ka)[i], sort_desc(b, kb)[i]),
        forall|i: int|
            0 <= i < a.len() ==> ka(#[trigger] sort_desc(a, ka)[i]) == kb(sort_desc(b, kb)[i]),
    decreases a.len(),
{
    lemma_sort_desc_sorted(a, ka);
    lemma_sort_desc_sorted(b, kb);
    if a.len() != 0 {
        let a0 = a.drop_last();
        let b0 = b.drop_last();
        assert(forall|i: int| 0 <= i < a0.len() ==> rel(#[trigger] a0[i], b0[i]));
        assert(forall|i: int| 0 <= i < a0.len() ==> ka(#[trigger] a0[i]) == kb(b0[i]));
        lemma_sort_desc_parallel(a0, b0, ka, kb, rel);
        assert(rel(a.last(), b.last()) && ka(a.last()) == kb(b.last()));
        lemma_insert_desc_parallel(
            sort_desc(a0, ka),
            sort_desc(b0, kb),
            a.last(),
            b.last(),
            ka,
            kb,
            rel,
        );
    }
}

/// Every element of a stable sort comes from its input.
pub proof fn lemma_sort_desc_membership<T>(s: Seq<T>, key: spec_fn(T) -> int)
    ensures
        sort_desc(s, key).len() == s.len(),
        forall|i: int|
            0 <= i < sort_desc(s, key).len() ==> s.contains(#[trigger] sort_desc(s, key)[i]),
    decreases s.len(),
{
    lemma_sort_desc_sorted(s, key);
    if s.len() != 0 {
        let s0 = s.drop_last();
        lemma_sort_desc_membership(s0, key);
        lemma_insert_desc_elems(sort_desc(s0, key), s.last(), key);
        let f = sort_desc(s, key);
        assert forall|i: int| 0 <= i < f.len() implies s.contains(#[trigger] f[i]) by {
            if f[i] == s.last() {
                assert(s[s.len() - 1] == s.last());
            } else {
                assert(sort_desc(s0, key).contains(f[i]));
                let m = choose|m: int| 0 <= m < s0.len() && s0[m] == f[i];
                assert(s[m] == f[i]);
            }
        }
    }
}

/// The ranking key of an index/score pair.
pub open spec fn pair_score_key() -> spec_fn((usize, i64)) -> int {
    |p: (usize, i64)| p.1 as int
}

/// The ranking key of an index/count pair.
pub open spec fn pair_count_key() -> spec_fn((usize, u128)) -> int {
    |p: (usize, u128)| p.1 as int
}

/// The ranking key of an index/combined-score pair.
pub open spec fn pair_wide_key() -> spec_fn((usize, i128)) -> int {
    |p: (usize, i128)| p.1 as int
}

/// Stable insertion sort of index/count pairs by non-increasing count.
#[verifier::loop_isolation(false)]
pub(crate) fn sort_counts_desc(v: &Vec<(usize, u128)>) -> (r: Vec<(usize, u128)>)
    ensures
        r@ == sort_desc(v@, pair_count_key()),
{
    let ghost key = pair_count_key();
    let n = v.len();
    let mut r: Vec<(usize, u128)> = Vec::new();
    for i in 0..n
        invariant
            r@ == sort_desc(v@.subrange(0, i as int), pair_count_key()),
    {
        let x = v[i];
        let m = r.len();
        let mut p: usize = 0;
        while p < m && r[p].1 >= x.1
            invariant
                p <= m,
                m == r@.len(),
                forall|l: int| 0 <= l < p ==> key(#[trigger] r@[l]) >= key(x),
            decreases m - p,
        {
            p = p + 1;
        }
        proof {
            assert(p < m ==> key(r@[p as int]) < key(x));
            lemma_insert_desc_at(r@, x, key, p as int);
        }
        let ghost before = r@;
        r.insert(p, x);
        proof {
            assert(r@ =~= before.subrange(0, p as int) + seq![x] + before.subrange(
                p as int,
                before.len() as int,
            ));
            let s1 = v@.subrange(0, i + 1);
            assert(s1.drop_last() =~= v@.subrange(0, i as int));
            assert(s1.last() == v@[i as int]);
        }
    }
    proof {
        assert(v@.subrange(0, n as int) =~= v@);
    }
    r
}

/// Stable insertion sort of index/combined-score pairs by non-increasing
/// score.
#[verifier::loop_isolation(false)]
pub(crate) fn sort_wide_desc(v: &Vec<(usize, i128)>) -> (r: Vec<(usize, i128)>)
    ensures
        r@ == sort_desc(v@, pair_wide_key()),
{
    let ghost key = pair_wide_key();
    let n = v.len();
    let mut r: Vec<(usize, i128)> = Vec::new();
    for i in 0..n
        invariant
            r@ == sort_desc(v@.subrange(0, i as int), pair_wide_key()),
    {
        let x = v[i];
        let m = r.len();
        let mut p: usize = 0;
        while p < m && r[p].1 >= x.1
            invariant
                p <= m,
                m == r@.len(),
                forall|l: int| 0 <= l < p ==> key(#[trigger] r@[l]) >= key(x),
            decreases m - p,
        {
            p = p + 1;
        }
        proof {
            assert(p < m ==> key(r@[p as int]) < key(x));
            lemma_insert_desc_at(r@, x, key, p as int);
        }
        let ghost before = r@;
        r.insert(p, x);
        proof {
            assert(r@ =~= before.subrange(0, p as int) + seq![x] + before.subrange(
                p as int,
                before.len() as int,
            ));
            let s1 = v@.subrange(0, i + 1);
            assert(s1.drop_last() =~= v@.subrange(0, i as int));
            assert(s1.last() == v@[i as int]);
        }
    }
    proof {
        assert(v@.subrange(0, n as int) =~= v@);
    }
    r
}

/// Stable insertion sort of index/score pairs by non-increasing score.
#[verifier::loop_isolation(false)]
pub(crate) fn sort_pairs_desc(v: &Vec<(usize, i64)>) -> (r: Vec<(usize, i64)>)
    ensures
        r@ == sort_desc(v@, pair_score_key()),
{
    let ghost key = pair_score_key();
    let n = v.len();
    let mut r: Vec<(usize, i64)> = Vec::new();
    for i in 0..n
        invariant
            r@ == sort_desc(v@.subrange(0, i as int), pair_score_key()),
    {
        let x = v[i];
        let m = r.len();
        let mut p: usize = 0;
        while p < m && r[p].1 >= x.1
            invariant
                p <= m,
                m == r@.len(),
                forall|l: int| 0 <= l < p ==> key(#[trigger] r@[l]) >= key(x),
            decreases m - p,
        {
            p = p + 1;
        }
        proof {
            assert(p < m ==> key(r@[p as int]) < key(x));
            lemma_insert_desc_at(r@, x, key, p as int);
        }
        let ghost before = r@;
        r.insert(p, x);
        proof {
            assert(r@ =~= before.subrange(0, p as int) + seq![x] + before.subrange(
                p as int,
                before.len() as int,
            ));
            let s1 = v@.subrange(0, i + 1);
            assert(s1.drop_last() =~= v@.subrange(0, i as int));
            assert(s1.last() == v@[i as int]);
        }
    }
    proof {
        assert(v@.subrange(0, n as int) =~= v@);
    }
    r
}

} // verus!
