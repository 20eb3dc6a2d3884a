//! Counting and listing the set places of a plane.
use vstd::prelude::*;

use crate::geometry::{at, in_rect, lemma_at_bound, lemma_at_join, lemma_at_split, lemma_row_before, rect_on, Rect};

verus! {

/// How many places are set.
pub open spec fn tally(s: Seq<bool>) -> nat
    decreases s.len(),
{
    if s.len() == 0 {
        0
    } else {
        tally(s.drop_last()) + if s.last() { 1nat } else { 0nat }
    }
}

/// The set places in ascending order.
pub open spec fn ones(s: Seq<bool>) -> Seq<int>
    decreases s.len(),
{
    if s.len() == 0 {
        Seq::empty()
    } else if s.last() {
        ones(s.drop_last()).push(s.len() - 1)
    } else {
        ones(s.drop_last())
    }
}

/// The set places as machine integers.
pub open spec fn lists(r: Seq<usize>, s: Seq<bool>) -> bool {
    r.map_values(|v: usize| v as int) == ones(s)
}

/// Reading one more place.
pub proof fn lemma_tally_step(s: Seq<bool>, i: int)
    requires
        0 <= i < s.len(),
    ensures
        tally(s.take(i + 1)) == tally(s.take(i)) + if s[i] { 1nat } else { 0nat },
        ones(s.take(i + 1)) == if s[i] { ones(s.take(i)).push(i) } else { ones(s.take(i)) },
        tally(s.take(i + 1)) <= i + 1,
{
    assert(s.take(i + 1).drop_last() =~= s.take(i));
    lemma_tally_bound(s.take(i));
}

pub proof fn lemma_tally_bound(s: Seq<bool>)
    ensures
        tally(s) <= s.len(),
        ones(s).len() == tally(s),
    decreases s.len(),
{
    if s.len() > 0 {
        lemma_tally_bound(s.drop_last());
    }
}

/// Passing over places that are not set.
pub proof fn lemma_ones_skip(s: Seq<bool>, i: int, j: int)
    requires
        0 <= i <= j <= s.len(),
        forall|k: int| i <= k < j ==> !(#[trigger] s[k]),
    ensures
        ones(s.take(j)) == ones(s.take(i)),
        tally(s.take(j)) == tally(s.take(i)),
    decreases j - i,
{
    if i < j {
        lemma_ones_skip(s, i, j - 1);
        lemma_tally_step(s, j - 1);
    }
}

/// The listed places are the set ones, each once, in ascending order.
pub proof fn lemma_ones(s: Seq<bool>)
    ensures
        forall|k: int| 0 <= k < ones(s).len() ==> 0 <= #[trigger] ones(s)[k] < s.len() && s[ones(s)[k]],
        forall|k: int, l: int| 0 <= k < l < ones(s).len() ==> ones(s)[k] < ones(s)[l],
        forall|i: int| 0 <= i < s.len() && s[i] ==> #[trigger] ones(s).contains(i),
    decreases s.len(),
{
    if s.len() > 0 {
        let t = s.drop_last();
        lemma_ones(t);
        assert forall|k: int| 0 <= k < ones(s).len() implies 0 <= #[trigger] ones(s)[k] < s.len() && s[ones(s)[k]] by {
            if k < ones(t).len() {
                assert(ones(s)[k] == ones(t)[k]);
                assert(t[ones(t)[k]]);
            }
        }
        assert forall|i: int| 0 <= i < s.len() && s[i] implies #[trigger] ones(s).contains(i) by {
            if i < t.len() {
                assert(t[i]);
                assert(ones(t).contains(i));
                let k = choose|k: int| 0 <= k < ones(t).len() && ones(t)[k] == i;
                assert(ones(s)[k] == i);
            } else {
                assert(ones(s)[ones(t).len() as int] == i);
            }
        }
    }
}

/// No place is set exactly when none is counted.
pub proof fn lemma_tally_zero(s: Seq<bool>)
    ensures
        tally(s) == 0 <==> forall|i: int| 0 <= i < s.len() ==> !(#[trigger] s[i]),
    decreases s.len(),
{
    if s.len() > 0 {
        let t = s.drop_last();
        lemma_tally_zero(t);
        if tally(s) == 0 {
            assert forall|i: int| 0 <= i < s.len() implies !(#[trigger] s[i]) by {
                if i < t.len() {
                    assert(!t[i]);
                }
            }
        } else if forall|i: int| 0 <= i < s.len() ==> !(#[trigger] s[i]) {
            assert(!s[s.len() - 1]);
            assert forall|i: int| 0 <= i < t.len() implies !(#[trigger] t[i]) by {
                assert(!s[i]);
            }
        }
    }
}

/// Places set in one plane or the other, counted apart.
pub proof fn lemma_tally_split(whole: Seq<bool>, a: Seq<bool>, b: Seq<bool>)
    requires
        whole.len() == a.len() == b.len(),
        forall|i: int| 0 <= i < whole.len() ==> (#[trigger] whole[i] <==> a[i] || b[i]),
        forall|i: int| 0 <= i < whole.len() ==> !(#[trigger] a[i] && b[i]),
    ensures
        tally(whole) == tally(a) + tally(b),
    decreases whole.len(),
{
    if whole.len() > 0 {
        let n = whole.len() - 1;
        assert forall|i: int| 0 <= i < n implies (#[trigger] whole.drop_last()[i] <==> a.drop_last()[i]
            || b.drop_last()[i]) by {
            assert(whole[i] <==> a[i] || b[i]);
        }
        assert forall|i: int| 0 <= i < n implies !(#[trigger] a.drop_last()[i] && b.drop_last()[i]) by {
            assert(!(a[i] && b[i]));
        }
        lemma_tally_split(whole.drop_last(), a.drop_last(), b.drop_last());
        assert(whole[n] <==> a[n] || b[n]);
        assert(!(a[n] && b[n]));
    }
}

/// More set places count no less.
pub proof fn lemma_tally_subset(a: Seq<bool>, b: Seq<bool>)
    requires
        a.len() == b.len(),
        forall|i: int| 0 <= i < a.len() && #[trigger] a[i] ==> b[i],
    ensures
        tally(a) <= tally(b),
    decreases a.len(),
{
    if a.len() > 0 {
        assert forall|i: int| 0 <= i < a.len() - 1 && #[trigger] a.drop_last()[i] implies b.drop_last()[i] by {
            assert(a[i]);
        }
        lemma_tally_subset(a.drop_last(), b.drop_last());
        assert(a[a.len() - 1] ==> b[a.len() - 1]);
    }
}

/// What is set in a rectangle of a plane that is `w` wide.
pub open spec fn set_in(flags: Seq<bool>, w: int, r: Rect) -> Seq<bool> {
    Seq::new(flags.len(), |i: int| flags[i] && in_rect(r, i % w, i / w))
}

/// The set places in a rectangle, in ascending order.
pub fn places_in(flags: &[bool], w: u32, h: u32, r: Rect) -> (places: Vec<usize>)
    requires
        flags@.len() == w * h,
        rect_on(r, w as int, h as int),
    ensures
        lists(places@, set_in(flags@, w as int, r)),
{
    let n: usize = flags.len();
    let ghost (wi, hi) = (w as int, h as int);
    let ghost s = set_in(flags@, wi, r);
    let mut places: Vec<usize> = Vec::new();
    let ghost mut done: int = 0;
    assert(s.take(0) =~= Seq::empty());
    assert(places@.map_values(|v: usize| v as int) =~= Seq::empty());
    let mut y: u32 = r.1;
    proof {
        lemma_at_bound(wi, hi, 0, y as int);
        assert forall|i: int| 0 <= i < at(wi, 0, y as int) implies !(#[trigger] s[i]) by {
            lemma_row_before(wi, i, y as int);
        }
    }
    while y <= r.3
        invariant
            wi == w,
            hi == h,
            n == flags@.len() == w * h,
            rect_on(r, wi, hi),
            s == set_in(flags@, wi, r),
            r.1 <= y <= r.3 + 1,
            0 <= done <= at(wi, 0, y as int),
            done <= s.len(),
            forall|i: int| done <= i < at(wi, 0, y as int) && i < s.len() ==> !(#[trigger] s[i]),
            lists(places@, s.take(done)),
        decreases r.3 + 1 - y,
    {
        let mut x: u32 = r.0;
        proof {
            lemma_at_bound(wi, hi, r.0 as int, y as int);
            assert forall|i: int| done <= i < at(wi, r.0 as int, y as int) implies !(#[trigger] s[i]) by {
                if i >= at(wi, 0, y as int) {
                    lemma_at_split(wi, i - y * wi, y as int);
                }
            }
        }
        while x <= r.2
            invariant
                wi == w,
                hi == h,
                n == flags@.len() == w * h,
                rect_on(r, wi, hi),
                s == set_in(flags@, wi, r),
                r.1 <= y <= r.3,
                r.0 <= x <= r.2 + 1,
                0 <= done <= at(wi, x as int, y as int) <= s.len(),
                forall|i: int| done <= i < at(wi, x as int, y as int) ==> !(#[trigger] s[i]),
                lists(places@, s.take(done)),
            decreases r.2 + 1 - x,
        {
            proof {
                lemma_at_bound(wi, hi, x as int, y as int);
                lemma_at_split(wi, x as int, y as int);
            }
            let i: usize = (y as usize) * (w as usize) + x as usize;
            if flags[i] {
                let ghost had = places@;
                places.push(i);
                proof {
                    lemma_ones_skip(s, done, i as int);
                    lemma_tally_step(s, i as int);
                    assert(places@.map_values(|v: usize| v as int) =~= had.map_values(|v: usize| v as int).push(i as int));
                    done = i + 1;
                }
            }
            x += 1;
        }
        proof {
            lemma_at_bound(wi, hi, wi - 1, y as int);
            assert(at(wi, 0, y + 1) == at(wi, wi - 1, y as int) + 1) by (nonlinear_arith)
                requires
                    at(wi, 0, y + 1) == (y + 1) * wi,
                    at(wi, wi - 1, y as int) == y * wi + wi - 1,
            ;
            assert forall|i: int| done <= i < at(wi, 0, y + 1) implies !(#[trigger] s[i]) by {
                if i >= at(wi, x as int, y as int) {
                    lemma_at_split(wi, i - y * wi, y as int);
                }
            }
        }
        y += 1;
    }
    proof {
        assert forall|i: int| done <= i < s.len() implies !(#[trigger] s[i]) by {
            if i >= at(wi, 0, y as int) {
                lemma_at_join(wi, hi, i);
                lemma_row_before(wi, i, y as int);
            }
        }
        lemma_ones_skip(s, done, s.len() as int);
        assert(s.take(s.len() as int) =~= s);
    }
    places
}

/// The set places of a plane, in ascending order.
pub fn places_of(flags: &[bool]) -> (places: Vec<usize>)
    ensures
        lists(places@, flags@),
{
    let n: usize = flags.len();
    let mut places: Vec<usize> = Vec::new();
    assert(flags@.take(0) =~= Seq::empty());
    assert(places@.map_values(|v: usize| v as int) =~= Seq::empty());
    let mut i: usize = 0;
    while i < n
        invariant
            n == flags@.len(),
            i <= n,
            lists(places@, flags@.take(i as int)),
        decreases n - i,
    {
        proof {
            lemma_tally_step(flags@, i as int);
        }
        if flags[i] {
            let ghost had = places@;
            places.push(i);
            assert(places@.map_values(|v: usize| v as int) =~= had.map_values(|v: usize| v as int).push(i as int));
        }
        i += 1;
    }
    assert(flags@.take(n as int) =~= flags@);
    places
}

/// How many places of a plane are set.
pub fn count_set(flags: &[bool]) -> (r: u64)
    requires
        flags@.len() <= u64::MAX,
    ensures
        r == tally(flags@),
{
    let n: usize = flags.len();
    let mut r: u64 = 0;
    let mut i: usize = 0;
    assert(flags@.take(0) =~= Seq::empty());
    while i < n
        invariant
            n == flags@.len() <= u64::MAX,
            i <= n,
            r == tally(flags@.take(i as int)),
            r <= i,
        decreases n - i,
    {
        proof {
            lemma_tally_step(flags@, i as int);
        }
        if flags[i] {
            r += 1;
        }
        i += 1;
    }
    assert(flags@.take(n as int) =~= flags@);
    r
}

} // verus!
