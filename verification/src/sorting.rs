//! Sorting of keys, and what is read from sorted keys.
use vstd::prelude::*;

verus! {

broadcast use vstd::seq_lib::group_to_multiset_ensures;

/// The keys are in ascending order.
pub open spec fn sorted(t: Seq<u64>) -> bool {
    forall|i: int, j: int| 0 <= i <= j < t.len() ==> t[i] <= t[j]
}

/// `t` holds the keys of `s` in ascending order.
pub open spec fn sorts(t: Seq<u64>, s: Seq<u64>) -> bool {
    sorted(t) && t.to_multiset() == s.to_multiset()
}

/// `v` has the place `k` among the sorted keys of `s`.
pub open spec fn ranked(s: Seq<u64>, k: int, v: u64) -> bool {
    exists|t: Seq<u64>| #[trigger] sorts(t, s) && 0 <= k < t.len() && v == t[k]
}

/// A key of some rank is one of the keys.
pub proof fn lemma_ranked_in(s: Seq<u64>, k: int, v: u64)
    requires
        ranked(s, k, v),
    ensures
        s.contains(v),
{
    let t = choose|t: Seq<u64>| #[trigger] sorts(t, s) && 0 <= k < t.len() && v == t[k];
    t.to_multiset_ensures();
    s.to_multiset_ensures();
    assert(t.contains(t[k]));
    assert(t.to_multiset().count(v) > 0);
}

/// `m` is the median: the key in the middle of the sorted ones, the upper of two.
pub open spec fn is_median(s: Seq<u64>, m: u64) -> bool {
    ranked(s, s.len() as int / 2, m)
}

/// One more of a prefix.
proof fn lemma_take_more(s: Seq<u64>, i: int)
    requires
        0 <= i < s.len(),
    ensures
        s.take(i + 1).to_multiset() == s.take(i).to_multiset().insert(s[i]),
{
    assert(s.take(i + 1) =~= s.take(i).push(s[i]));
}

fn merge(a: &Vec<u64>, b: &Vec<u64>) -> (r: Vec<u64>)
    requires
        sorted(a@),
        sorted(b@),
        a@.len() + b@.len() <= usize::MAX,
    ensures
        sorted(r@),
        r@.len() == a@.len() + b@.len(),
        r@.to_multiset() == a@.to_multiset().add(b@.to_multiset()),
{
    let mut r: Vec<u64> = Vec::with_capacity(a.len() + b.len());
    let mut i: usize = 0;
    let mut j: usize = 0;
    proof {
        assert(a@.take(0) =~= Seq::empty());
        assert(b@.take(0) =~= Seq::empty());
        assert(r@.to_multiset() =~= a@.take(0).to_multiset().add(b@.take(0).to_multiset()));
    }
    while i < a.len() || j < b.len()
        invariant
            sorted(a@),
            sorted(b@),
            i <= a@.len(),
            j <= b@.len(),
            sorted(r@),
            r@.len() == i + j,
            r@.to_multiset() == a@.take(i as int).to_multiset().add(b@.take(j as int).to_multiset()),
            forall|k: int| 0 <= k < r@.len() && i < a@.len() ==> #[trigger] r@[k] <= a@[i as int],
            forall|k: int| 0 <= k < r@.len() && j < b@.len() ==> #[trigger] r@[k] <= b@[j as int],
        decreases a@.len() + b@.len() - i - j,
    {
        let ghost had = r@;
        if j >= b.len() || (i < a.len() && a[i] <= b[j]) {
            proof {
                lemma_take_more(a@, i as int);
            }
            r.push(a[i]);
            i += 1;
            proof {
                let m = a@.take(i - 1).to_multiset();
                assert(m.insert(a@[i - 1]).add(b@.take(j as int).to_multiset()) =~= m.add(
                    b@.take(j as int).to_multiset(),
                ).insert(a@[i - 1]));
            }
        } else {
            proof {
                lemma_take_more(b@, j as int);
            }
            r.push(b[j]);
            j += 1;
            proof {
                let m = b@.take(j - 1).to_multiset();
                assert(a@.take(i as int).to_multiset().add(m.insert(b@[j - 1])) =~= a@.take(
                    i as int,
                ).to_multiset().add(m).insert(b@[j - 1]));
            }
        }
        assert(r@.to_multiset() == had.to_multiset().insert(r@.last()));
    }
    assert(a@.take(i as int) =~= a@);
    assert(b@.take(j as int) =~= b@);
    r
}

/// Sorts keys in ascending order.
pub fn sort_keys(v: Vec<u64>) -> (r: Vec<u64>)
    ensures
        sorts(r@, v@),
        r@.len() == v@.len(),
    decreases v@.len(),
{
    if v.len() <= 1 {
        return v;
    }
    let half: usize = v.len() / 2;
    let mut left: Vec<u64> = Vec::with_capacity(half);
    let mut right: Vec<u64> = Vec::with_capacity(v.len() - half);
    let mut i: usize = 0;
    while i < v.len()
        invariant
            half < v@.len(),
            i <= v@.len(),
            left@ == v@.take(if i < half { i as int } else { half as int }),
            right@ == v@.subrange(half as int, if i < half { half as int } else { i as int }),
        decreases v@.len() - i,
    {
        if i < half {
            left.push(v[i]);
            assert(v@.take(i + 1) =~= v@.take(i as int).push(v@[i as int]));
        } else {
            right.push(v[i]);
            assert(v@.subrange(half as int, i + 1) =~= v@.subrange(half as int, i as int).push(v@[i as int]));
        }
        i += 1;
    }
    proof {
        assert(v@ =~= left@ + right@);
        vstd::seq_lib::lemma_multiset_commutative(left@, right@);
    }
    let a: Vec<u64> = sort_keys(left);
    let b: Vec<u64> = sort_keys(right);
    merge(&a, &b)
}

/// The median of some keys, if there are any.
pub fn median(v: Vec<u64>) -> (r: Option<u64>)
    ensures
        r is None <==> v@.len() == 0,
        r matches Some(m) ==> is_median(v@, m),
{
    let n: usize = v.len();
    if n == 0 {
        return None;
    }
    let ghost s = v@;
    let t: Vec<u64> = sort_keys(v);
    assert(sorts(t@, s));
    Some(t[n / 2])
}

} // verus!
