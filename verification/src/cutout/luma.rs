//! Luminance, and constraints read from the luminance of a mask image.
use vstd::prelude::*;

use crate::cutout::constraints::{Constraint, Constraints};
use crate::raster::RgbaImage;
use crate::tally::tally;

verus! {

/// The Rec. 709 weights of red, green and blue in single precision, as parts of
/// `UNIT`. They add up to it.
pub const RED: u64 = 28_534_688;

pub const GREEN: u64 = 95_992_520;

pub const BLUE: u64 = 9_690_520;

pub const UNIT: u64 = 134_217_728;

/// The spacing of single-precision numbers around `n`: 24 binary digits are kept.
pub open spec fn spacing(n: nat) -> nat
    decreases n,
{
    if n < 16_777_216 {
        1
    } else {
        2 * spacing(n / 2)
    }
}

/// `n` rounded to single precision, ties to the even neighbour.
pub open spec fn single(n: nat) -> nat {
    let u = spacing(n);
    let q = n / u;
    let r = n % u;
    if 2 * r < u || (2 * r == u && q % 2 == 0) {
        q * u
    } else {
        (q + 1) * u
    }
}

/// The luminance of a pixel: the weighted sum taken in single precision from red
/// to blue, rounded to the nearest integer. Alpha has no part in it.
pub open spec fn luma_of(p: [u8; 4]) -> int {
    let r = single((RED * p[0]) as nat);
    let g = single((GREEN * p[1]) as nat);
    let b = single((BLUE * p[2]) as nat);
    ((single(single(r + g) + b) + UNIT / 2) / (UNIT as int)) as int
}

/// A spacing is at least 1 and small against its number.
proof fn lemma_spacing(n: nat)
    ensures
        1 <= spacing(n),
        n >= 16_777_216 ==> 8_388_608 * spacing(n) <= n,
    decreases n,
{
    if n >= 16_777_216 {
        lemma_spacing(n / 2);
    }
}

/// Rounding moves a number by at most one part in 2 to the 24.
pub proof fn lemma_single_close(n: nat)
    ensures
        16_777_216 * (single(n) - n) <= n,
        16_777_216 * (n - single(n)) <= n,
        n < 16_777_216 ==> single(n) == n,
{
    lemma_spacing(n);
    let u = spacing(n);
    let q = n / u;
    let r = n % u;
    vstd::arithmetic::div_mod::lemma_fundamental_div_mod(n as int, u as int);
    assert(0 <= r < u) by (nonlinear_arith)
        requires
            r == n % u,
            1 <= u,
    ;
    assert(n == q * u + r) by (nonlinear_arith)
        requires
            n == u * (n as int / u as int) + n % u,
            q == n / u,
            r == n % u,
    ;
    assert((q + 1) * u == q * u + u) by (nonlinear_arith);
}

fn to_single(n: u64) -> (r: u64)
    requires
        n <= 0x10_0000_0000,
    ensures
        r == single(n as nat),
        r <= 0x20_0000_0000,
{
    let mut u: u64 = 1;
    let mut m: u64 = n;
    while m >= 16_777_216
        invariant
            n <= 0x10_0000_0000,
            1 <= u,
            u * m <= n,
            u * spacing(m as nat) == spacing(n as nat),
        decreases m,
    {
        let ghost (v, k) = (u as int, m as int);
        assert(2 * v * (k / 2) <= n) by (nonlinear_arith)
            requires
                v * k <= n,
                0 <= v,
                0 <= k,
        ;
        assert(2 * v <= n) by (nonlinear_arith)
            requires
                v * k <= n,
                k >= 16_777_216,
                1 <= v,
        ;
        assert(v * (2 * spacing((k / 2) as nat)) == 2 * v * spacing((k / 2) as nat)) by (nonlinear_arith);
        m = m / 2;
        u = 2 * u;
    }
    proof {
        lemma_spacing(n as nat);
        lemma_single_close(n as nat);
        assert(u * 1 == u) by (nonlinear_arith);
        vstd::arithmetic::div_mod::lemma_fundamental_div_mod(n as int, u as int);
        assert((n / u) * u <= n) by (nonlinear_arith)
            requires
                n == u * (n as int / u as int) + n as int % u as int,
                0 <= n as int % u as int,
        ;
        assert((n / u + 1) * u == (n / u) * u + u) by (nonlinear_arith);
    }
    let q: u64 = n / u;
    let r: u64 = n % u;
    if r < u - r || (r == u - r && q % 2 == 0) {
        q * u
    } else {
        (q + 1) * u
    }
}

/// The luminance of a pixel. A grey pixel keeps its value.
pub fn luma(p: [u8; 4]) -> (r: u8)
    ensures
        r == luma_of(p),
        p[0] == p[1] == p[2] ==> r == p[0],
{
    proof {
        lemma_single_close((RED * p[0]) as nat);
        lemma_single_close((GREEN * p[1]) as nat);
        lemma_single_close((BLUE * p[2]) as nat);
    }
    let red: u64 = to_single(RED * (p[0] as u64));
    let green: u64 = to_single(GREEN * (p[1] as u64));
    let blue: u64 = to_single(BLUE * (p[2] as u64));
    proof {
        lemma_single_close((red + green) as nat);
    }
    let most: u64 = to_single(red + green);
    proof {
        lemma_single_close((most + blue) as nat);
    }
    let all: u64 = to_single(most + blue);
    ((all + UNIT / 2) / UNIT) as u8
}

/// What `decide` may have said of each pixel, by its luminance.
pub open spec fn decided<F: Fn(u8) -> Option<Constraint>>(
    decide: F,
    image: Seq<[u8; 4]>,
    said: Seq<Option<Constraint>>,
) -> bool {
    &&& said.len() == image.len()
    &&& forall|i: int|
        0 <= i < said.len() ==> call_ensures(decide, (luma_of(image[i]) as u8,), #[trigger] said[i])
}

impl Constraints {
    /// Marks pixels by the luminance of an image of the same size and returns how
    /// many were marked. Where `decide` says nothing, nothing changes; an image
    /// of another size changes nothing at all.
    pub fn mark_by_luma<F: Fn(u8) -> Option<Constraint>>(&mut self, image: &RgbaImage, decide: F) -> (marked: u64)
        requires
            old(self).wf(),
            image.wf(),
            forall|l: u8| #[trigger] call_requires(decide, (l,)),
        ensures
            final(self).wf(),
            final(self).w() == old(self).w(),
            final(self).h() == old(self).h(),
            final(self).listed() == old(self).listed(),
            image.w() != old(self).w() || image.h() != old(self).h() ==> marked == 0 && final(self).fg() == old(
                self,
            ).fg() && final(self).bg() == old(self).bg(),
            image.w() == old(self).w() && image.h() == old(self).h() ==> exists|said: Seq<Option<Constraint>>| {
                &&& #[trigger] decided(decide, image@, said)
                &&& final(self).fg() == Seq::new(
                    old(self).fg().len(),
                    |i: int| old(self).fg()[i] || said[i] == Some(Constraint::ForcedFg),
                )
                &&& final(self).bg() == Seq::new(
                    old(self).bg().len(),
                    |i: int| old(self).bg()[i] || said[i] == Some(Constraint::ForcedBg),
                )
                &&& marked == tally(Seq::new(said.len(), |i: int| said[i] is Some))
            },
    {
        if image.width() != self.width() || image.height() != self.height() {
            return 0;
        }
        let pixels: &[[u8; 4]] = image.pixels();
        let mut marked: u64 = 0;
        let mut i: usize = 0;
        let ghost mut said = Seq::<Option<Constraint>>::empty();
        assert(Seq::new(said.len(), |k: int| said[k] is Some) =~= Seq::empty());
        while i < pixels.len()
            invariant
                forall|l: u8| #[trigger] call_requires(decide, (l,)),
                old(self).wf(),
                self.wf(),
                self.w() == old(self).w(),
                self.h() == old(self).h(),
                self.listed() == old(self).listed(),
                pixels@ == image@,
                pixels@.len() == self.fg().len() == old(self).fg().len(),
                pixels@.len() == self.bg().len() == old(self).bg().len(),
                i <= pixels@.len(),
                said.len() == i,
                marked <= i,
                marked == tally(Seq::new(said.len(), |k: int| said[k] is Some)),
                forall|k: int|
                    0 <= k < said.len() ==> call_ensures(decide, (luma_of(pixels@[k]) as u8,), #[trigger] said[k]),
                forall|k: int|
                    0 <= k < pixels@.len() ==> #[trigger] self.fg()[k] == (old(self).fg()[k] || (k < i && said[k]
                        == Some(Constraint::ForcedFg))),
                forall|k: int|
                    0 <= k < pixels@.len() ==> #[trigger] self.bg()[k] == (old(self).bg()[k] || (k < i && said[k]
                        == Some(Constraint::ForcedBg))),
            decreases pixels@.len() - i,
        {
            let answer: Option<Constraint> = decide(luma(pixels[i]));
            let ghost had = said;
            let ghost was = *self;
            proof {
                said = said.push(answer);
                let now = Seq::new(said.len(), |k: int| said[k] is Some);
                assert(now.drop_last() =~= Seq::new(had.len(), |k: int| had[k] is Some));
                assert(now.last() == (answer is Some));
            }
            if let Some(kind) = answer {
                self.mark_index(i, kind);
                marked += 1;
                proof {
                    assert forall|k: int| 0 <= k < pixels@.len() implies #[trigger] self.fg()[k] == (was.fg()[k] || (k
                        == i && kind == Constraint::ForcedFg)) by {}
                    assert forall|k: int| 0 <= k < pixels@.len() implies #[trigger] self.bg()[k] == (was.bg()[k] || (k
                        == i && kind == Constraint::ForcedBg)) by {}
                }
            }
            i += 1;
        }
        proof {
            assert(decided(decide, image@, said));
            assert(self.fg() =~= Seq::new(
                old(self).fg().len(),
                |k: int| old(self).fg()[k] || said[k] == Some(Constraint::ForcedFg),
            ));
            assert(self.bg() =~= Seq::new(
                old(self).bg().len(),
                |k: int| old(self).bg()[k] || said[k] == Some(Constraint::ForcedBg),
            ));
        }
        marked
    }
}

} // verus!
