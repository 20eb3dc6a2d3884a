//! Laws of medians and quantiles, told by counting.
use vstd::prelude::*;

use crate::cutout::background::{are_quantiles, DeltaEQuantiles};
use crate::sorting::{is_median, lemma_ranked_in, ranked, sorts};
use crate::tally::{lemma_tally_bound, tally};

verus! {

/// How many of the keys `which` holds of.
pub open spec fn how_many(s: Seq<u64>, which: spec_fn(u64) -> bool) -> nat {
    tally(Seq::new(s.len(), |i: int| which(s[i])))
}

proof fn lemma_how_many(s: Seq<u64>, which: spec_fn(u64) -> bool)
    ensures
        how_many(s, which) == s.to_multiset().filter(which).len(),
    decreases s.len(),
{
    broadcast use vstd::seq_lib::group_to_multiset_ensures, vstd::multiset::group_multiset_axioms;

    let flags = Seq::new(s.len(), |i: int| which(s[i]));
    if s.len() == 0 {
        assert(s.to_multiset().filter(which) =~= vstd::multiset::Multiset::empty());
    } else {
        let (t, v) = (s.drop_last(), s.last());
        lemma_how_many(t, which);
        assert(flags.drop_last() =~= Seq::new(t.len(), |i: int| which(t[i])));
        assert(s =~= t.push(v));
        if which(v) {
            assert(s.to_multiset().filter(which) =~= t.to_multiset().filter(which).insert(v));
        } else {
            assert(s.to_multiset().filter(which) =~= t.to_multiset().filter(which));
        }
    }
}

proof fn lemma_few_first(flags: Seq<bool>, k: int)
    requires
        0 <= k <= flags.len(),
    ensures
        (forall|i: int| k <= i < flags.len() ==> !(#[trigger] flags[i])) ==> tally(flags) <= k,
        (forall|i: int| 0 <= i < k ==> #[trigger] flags[i]) ==> tally(flags) >= k,
        (forall|i: int| 0 <= i < k ==> !(#[trigger] flags[i])) ==> tally(flags) <= flags.len() - k,
    decreases flags.len(),
{
    if flags.len() > 0 {
        let t = flags.drop_last();
        if k < flags.len() {
            lemma_few_first(t, k);
        } else {
            lemma_few_first(t, k - 1);
        }
        lemma_tally_bound(flags);
        assert(forall|i: int| 0 <= i < t.len() ==> t[i] == flags[i]);
        assert(flags.last() == flags[flags.len() - 1]);
    }
}

/// The key of place `k` is one of the keys. At most `k` are less, and at most as
/// many are greater as come after that place.
pub proof fn law_a_rank_parts_the_keys(s: Seq<u64>, k: int, v: u64)
    requires
        ranked(s, k, v),
    ensures
        s.contains(v),
        how_many(s, |u: u64| u < v) <= k,
        how_many(s, |u: u64| u > v) <= s.len() - 1 - k,
{
    lemma_ranked_in(s, k, v);
    let t = choose|t: Seq<u64>| #[trigger] sorts(t, s) && 0 <= k < t.len() && v == t[k];
    let (less, more) = (|u: u64| u < v, |u: u64| u > v);
    lemma_how_many(s, less);
    lemma_how_many(t, less);
    lemma_how_many(s, more);
    lemma_how_many(t, more);
    let below = Seq::new(t.len(), |i: int| less(t[i]));
    let above = Seq::new(t.len(), |i: int| more(t[i]));
    assert forall|i: int| k <= i < below.len() implies !(#[trigger] below[i]) by {
        assert(t[k] <= t[i]);
    }
    lemma_few_first(below, k);
    assert forall|i: int| 0 <= i < k + 1 implies !(#[trigger] above[i]) by {
        assert(t[i] <= t[k]);
    }
    lemma_few_first(above, k + 1);
    t.to_multiset_ensures();
    s.to_multiset_ensures();
    assert(t.len() == s.len());
}

/// The median has at most half of the keys below it and less than half above.
pub proof fn law_the_median_is_in_the_middle(s: Seq<u64>, m: u64)
    requires
        is_median(s, m),
    ensures
        s.contains(m),
        2 * how_many(s, |u: u64| u < m) <= s.len(),
        2 * how_many(s, |u: u64| u > m) < s.len(),
{
    law_a_rank_parts_the_keys(s, s.len() as int / 2, m);
}

/// Half of the keys are no more than the first quantile, nine tenths no more than
/// the second, and all no more than the last; each is one of the keys. A tenth,
/// give or take one key, lies above the second.
pub proof fn law_quantiles_part_the_keys(s: Seq<u64>, q: DeltaEQuantiles)
    requires
        are_quantiles(s, q),
        s.len() > 0,
    ensures
        s.contains(q.p50),
        2 * how_many(s, |u: u64| u < q.p50) <= s.len(),
        2 * how_many(s, |u: u64| u > q.p50) < s.len(),
        s.contains(q.p90),
        10 * how_many(s, |u: u64| u < q.p90) <= 9 * s.len() - 4,
        10 * how_many(s, |u: u64| u > q.p90) < s.len() + 4,
        s.contains(q.max),
        forall|i: int| 0 <= i < s.len() ==> #[trigger] s[i] <= q.max,
{
    let n = s.len() as int;
    law_a_rank_parts_the_keys(s, n / 2, q.p50);
    law_a_rank_parts_the_keys(s, (9 * (n - 1) + 5) / 10, q.p90);
    law_a_rank_parts_the_keys(s, n - 1, q.max);
    let above = Seq::new(s.len(), |i: int| s[i] > q.max);
    assert(above =~= Seq::new(s.len(), |i: int| (|u: u64| u > q.max)(s[i])));
    crate::tally::lemma_tally_zero(above);
    assert forall|i: int| 0 <= i < s.len() implies #[trigger] s[i] <= q.max by {
        assert(!above[i]);
    }
}

} // verus!
