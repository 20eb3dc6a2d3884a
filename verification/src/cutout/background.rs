//! What the background looks like.
//!
//! The border of the image is taken for background. Its median colour is the
//! colour of the background, and how far the border strays from that colour tells
//! whether one colour is enough or a field over the image is needed.
//!
//! Distances between colours are handed in as keys: numbers in the order of the
//! distances.
use vstd::prelude::*;

use crate::cutout::cells::lemma_small_place;
use crate::cutout::constraints::Constraints;
use crate::cutout::edges::{gradient_magnitude, strength, GradientQuantiles, MAX_STRENGTH};
use crate::geometry::{at, in_rect, lemma_at_bound, lemma_at_split, on_plane, rect_on, Rect};
use crate::raster::RgbaImage;
use crate::sorting::{is_median, lemma_ranked_in, ranked, sort_keys, sorts};
use crate::tally::{
    count_set, lemma_ones, lemma_tally_bound, lemma_tally_zero, lists, ones, places_in, places_of, set_in, tally,
};

verus! {

/// The key of the distance within which colours count as the same: 5.
pub const UNIFORM_DELTA_E: u64 = 0x4014_0000_0000_0000;

/// The key of the distance that passes for background in any case: 15.
pub const FIELD_GATE_FLOOR: u64 = 0x402e_0000_0000_0000;

/// By how much the key of a number is less than that of its double.
pub const DOUBLING: u64 = 0x0010_0000_0000_0000;

/// How many pixels along the border are read.
pub const DEFAULT_BORDER: u32 = 2;

/// The band on which texture is measured is this part of the short side.
pub const TEXTURE_BAND_DIVISOR: u32 = 33;

/// The longer side of the grid of a field.
pub const FIELD_LONG_SIDE: u32 = 256;

/// A cell of a field needs samples on this part of its area.
pub const MIN_CELL_SAMPLE_DIVISOR: usize = 4;

/// Pixels with less alpha than this show no background.
pub const OPAQUE: u8 = 250;

/// How far the border strays from the colour of the background, as keys.
#[derive(Debug, Clone, Copy, PartialEq, Eq, Structural)]
pub struct DeltaEQuantiles {
    pub p50: u64,
    pub p90: u64,
    pub max: u64,
}

/// The colour of the background and how well the border keeps to it.
#[derive(Debug, Clone, Copy, PartialEq, Eq)]
pub struct BackgroundEstimate {
    pub rgb: [u8; 3],
    /// How many samples are close to the colour.
    pub within: u64,
    pub samples: u64,
    pub delta_e: DeltaEQuantiles,
}

impl BackgroundEstimate {
    /// There are samples, and at least 90 % of them are close to the colour.
    pub open spec fn uniform(&self) -> bool {
        self.samples > 0 && 10 * self.within >= 9 * self.samples
    }

    pub fn is_uniform(&self) -> (r: bool)
        ensures
            r == self.uniform(),
    {
        self.samples > 0 && 10 * (self.within as u128) >= 9 * (self.samples as u128)
    }
}

/// The width of the border that is read: at least 1, and no more than half of
/// either side, rounded up.
pub open spec fn border_width(w: int, h: int, border: int) -> int {
    let b = if border < 1 { 1 } else { border };
    let b = if b < (w + 1) / 2 { b } else { (w + 1) / 2 };
    if b < (h + 1) / 2 {
        b
    } else {
        (h + 1) / 2
    }
}

/// `(x, y)` is less than `b` pixels from the border.
pub open spec fn near_border(w: int, h: int, b: int, x: int, y: int) -> bool {
    x < b || y < b || x >= w - b || y >= h - b
}

/// The pixels of the border.
pub open spec fn border_plane(image: &RgbaImage, border: int) -> Seq<bool> {
    let (w, h) = (image.w() as int, image.h() as int);
    Seq::new(image@.len(), |i: int| near_border(w, h, border_width(w, h, border), i % w, i / w))
}

/// The opaque ones among them.
pub open spec fn opaque_border(image: &RgbaImage, border: int) -> Seq<bool> {
    Seq::new(image@.len(), |i: int| border_plane(image, border)[i] && image@[i][3] >= OPAQUE)
}

/// The pixels that show the background: the opaque ones of the border, or all of
/// it if none is opaque.
pub open spec fn shown(image: &RgbaImage, border: int) -> Seq<bool> {
    if tally(opaque_border(image, border)) > 0 {
        opaque_border(image, border)
    } else {
        border_plane(image, border)
    }
}

/// The places of the pixels that show the background, in ascending order.
pub fn for_each_border_pixel(image: &RgbaImage, border: u32) -> (r: Vec<usize>)
    requires
        image.wf(),
    ensures
        lists(r@, shown(image, border as int)),
{
    let w: u32 = image.width();
    let h: u32 = image.height();
    let ghost (wi, hi) = (w as int, h as int);
    let pixels: &[[u8; 4]] = image.pixels();
    let n: usize = pixels.len();
    let half_w: u32 = w / 2 + w % 2;
    let half_h: u32 = h / 2 + h % 2;
    let b: u32 = if border < 1 { 1 } else { border };
    let b: u32 = if b < half_w { b } else { half_w };
    let b: u32 = if b < half_h { b } else { half_h };
    let ghost (all, bright) = (border_plane(image, border as int), opaque_border(image, border as int));
    let mut every: Vec<bool> = Vec::with_capacity(n);
    let mut opaque: Vec<bool> = Vec::with_capacity(n);
    let mut i: usize = 0;
    while i < n
        invariant
            image.wf(),
            wi == w == image.w(),
            hi == h == image.h(),
            b == border_width(wi, hi, border as int),
            b <= w,
            b <= h,
            pixels@ == image@,
            n == image@.len() == wi * hi,
            all == border_plane(image, border as int),
            bright == opaque_border(image, border as int),
            i <= n,
            every@.len() == i,
            opaque@.len() == i,
            forall|k: int| 0 <= k < i ==> #[trigger] every@[k] == all[k],
            forall|k: int| 0 <= k < i ==> #[trigger] opaque@[k] == bright[k],
        decreases n - i,
    {
        proof {
            lemma_small_place(wi, hi, i as int);
        }
        let x: u32 = (i % (w as usize)) as u32;
        let y: u32 = (i / (w as usize)) as u32;
        let on: bool = x < b || y < b || x >= w - b || y >= h - b;
        every.push(on);
        opaque.push(on && pixels[i][3] >= OPAQUE);
        i += 1;
    }
    assert(every@ =~= all);
    assert(opaque@ =~= bright);
    let places: Vec<usize> = places_of(opaque.as_slice());
    proof {
        lemma_tally_bound(bright);
        assert(places@.map_values(|v: usize| v as int).len() == places@.len());
    }
    if places.len() > 0 {
        places
    } else {
        places_of(every.as_slice())
    }
}

/// The colours at listed places.
pub open spec fn colours_at(image: &RgbaImage, places: Seq<int>, c: Seq<[u8; 3]>) -> bool {
    &&& c.len() == places.len()
    &&& forall|j: int, k: int| 0 <= j < c.len() && 0 <= k < 3 ==> #[trigger] c[j][k] == image@[places[j]][k]
}

/// The colours that show the background.
pub fn collect_border_pixels(image: &RgbaImage, border: u32) -> (r: Vec<[u8; 3]>)
    requires
        image.wf(),
    ensures
        colours_at(image, ones(shown(image, border as int)), r@),
{
    let places: Vec<usize> = for_each_border_pixel(image, border);
    proof {
        lemma_ones(shown(image, border as int));
    }
    colours_of(image, &places, Ghost(shown(image, border as int)))
}

fn colours_of(image: &RgbaImage, places: &Vec<usize>, Ghost(s): Ghost<Seq<bool>>) -> (r: Vec<[u8; 3]>)
    requires
        image.wf(),
        s.len() == image@.len(),
        lists(places@, s),
    ensures
        colours_at(image, ones(s), r@),
{
    let pixels: &[[u8; 4]] = image.pixels();
    let n: usize = places.len();
    let mut r: Vec<[u8; 3]> = Vec::with_capacity(n);
    let ghost list = ones(s);
    proof {
        lemma_ones(s);
        assert(places@.map_values(|v: usize| v as int).len() == places@.len());
    }
    let mut j: usize = 0;
    while j < n
        invariant
            pixels@ == image@,
            s.len() == image@.len(),
            list == ones(s),
            n == places@.len() == list.len(),
            lists(places@, s),
            forall|k: int| 0 <= k < list.len() ==> 0 <= #[trigger] list[k] < s.len(),
            j <= n,
            r@.len() == j,
            forall|a: int, k: int| 0 <= a < j && 0 <= k < 3 ==> #[trigger] r@[a][k] == image@[list[a]][k],
        decreases n - j,
    {
        assert(places@.map_values(|v: usize| v as int)[j as int] == list[j as int]);
        let p: [u8; 4] = pixels[places[j]];
        r.push([p[0], p[1], p[2]]);
        j += 1;
    }
    r
}

/// One channel of a list of colours, as keys.
pub open spec fn channel_keys(samples: Seq<[u8; 3]>, k: int) -> Seq<u64> {
    Seq::new(samples.len(), |j: int| samples[j][k] as u64)
}

/// `c` is the median of the colours, channel by channel.
pub open spec fn is_median_rgb(samples: Seq<[u8; 3]>, c: [u8; 3]) -> bool {
    forall|k: int| 0 <= k < 3 ==> is_median(channel_keys(samples, k), #[trigger] c[k] as u64)
}

fn median_channel(samples: &[[u8; 3]], k: usize) -> (r: u8)
    requires
        samples@.len() > 0,
        k < 3,
    ensures
        is_median(channel_keys(samples@, k as int), r as u64),
{
    let n: usize = samples.len();
    let mut keys: Vec<u64> = Vec::with_capacity(n);
    let mut j: usize = 0;
    while j < n
        invariant
            n == samples@.len(),
            k < 3,
            j <= n,
            keys@.len() == j,
            forall|a: int| 0 <= a < j ==> #[trigger] keys@[a] == samples@[a][k as int] as u64,
        decreases n - j,
    {
        keys.push(samples[j][k] as u64);
        j += 1;
    }
    let ghost s = keys@;
    assert(s =~= channel_keys(samples@, k as int));
    let sorted_keys: Vec<u64> = sort_keys(keys);
    let v: u64 = sorted_keys[n / 2];
    proof {
        let t = sorted_keys@;
        assert(sorts(t, s));
        t.to_multiset_ensures();
        s.to_multiset_ensures();
        assert(t.to_multiset().count(v) > 0) by {
            assert(t.contains(t[n as int / 2]));
        }
        assert(s.contains(v));
        let a = choose|a: int| 0 <= a < s.len() && s[a] == v;
        assert(v == samples@[a][k as int] as u64);
    }
    v as u8
}

/// The median colour.
pub fn median_rgb(samples: &[[u8; 3]]) -> (r: [u8; 3])
    requires
        samples@.len() > 0,
    ensures
        is_median_rgb(samples@, r),
{
    [median_channel(samples, 0), median_channel(samples, 1), median_channel(samples, 2)]
}

/// The quantiles of a list of keys, 0 if it is empty. A place between two keys is
/// rounded to the nearest, up if in the middle.
pub open spec fn are_quantiles(s: Seq<u64>, q: DeltaEQuantiles) -> bool {
    let n = s.len() as int;
    if n == 0 {
        q == (DeltaEQuantiles { p50: 0, p90: 0, max: 0 })
    } else {
        &&& ranked(s, n / 2, q.p50)
        &&& ranked(s, (9 * (n - 1) + 5) / 10, q.p90)
        &&& ranked(s, n - 1, q.max)
    }
}

pub fn quantiles(deltas: Vec<u64>) -> (q: DeltaEQuantiles)
    ensures
        are_quantiles(deltas@, q),
{
    let n: usize = deltas.len();
    if n == 0 {
        return DeltaEQuantiles { p50: 0, p90: 0, max: 0 };
    }
    let ghost s = deltas@;
    let t: Vec<u64> = sort_keys(deltas);
    assert(sorts(t@, s));
    let ninth: usize = ((9 * ((n - 1) as u128) + 5) / 10) as usize;
    DeltaEQuantiles { p50: t[n / 2], p90: t[ninth], max: t[n - 1] }
}

/// Which keys are no more than `same`.
pub open spec fn close_ones(deltas: Seq<u64>, same: u64) -> Seq<bool> {
    Seq::new(deltas.len(), |i: int| deltas[i] <= same)
}

fn flags_within(deltas: &[u64], same: u64) -> (flags: Vec<bool>)
    ensures
        flags@ == close_ones(deltas@, same),
{
    let n: usize = deltas.len();
    let mut flags: Vec<bool> = Vec::with_capacity(n);
    let mut i: usize = 0;
    while i < n
        invariant
            n == deltas@.len(),
            i <= n,
            flags@.len() == i,
            forall|k: int| 0 <= k < i ==> #[trigger] flags@[k] == close_ones(deltas@, same)[k],
        decreases n - i,
    {
        flags.push(deltas[i] <= same);
        i += 1;
    }
    assert(flags@ =~= close_ones(deltas@, same));
    flags
}

/// The estimate from the samples of the border. `deltas` tells how far each is
/// from the median colour. Without samples the background is white, and nothing is
/// known of it.
pub fn estimate_background(samples: &[[u8; 3]], deltas: Vec<u64>) -> (r: BackgroundEstimate)
    requires
        deltas@.len() == samples@.len() <= u64::MAX,
    ensures
        r.samples == samples@.len(),
        samples@.len() == 0 ==> r.rgb == [255u8, 255u8, 255u8],
        samples@.len() > 0 ==> is_median_rgb(samples@, r.rgb),
        r.within == tally(close_ones(deltas@, UNIFORM_DELTA_E)),
        are_quantiles(deltas@, r.delta_e),
{
    let n: usize = samples.len();
    let flags: Vec<bool> = flags_within(deltas.as_slice(), UNIFORM_DELTA_E);
    let within: u64 = count_set(flags.as_slice());
    let rgb: [u8; 3] = if n == 0 { [255, 255, 255] } else { median_rgb(samples) };
    BackgroundEstimate { rgb, within, samples: n as u64, delta_e: quantiles(deltas) }
}

/// How far the border strays from a background that may be a field. For one colour
/// this is what was estimated; for a field `deltas` tells how far each pixel that
/// shows the background is from the colour of the field there.
pub fn perimeter_residual(background: &BackgroundEstimate, flat: bool, deltas: Vec<u64>) -> (q: DeltaEQuantiles)
    ensures
        flat ==> q == background.delta_e,
        !flat ==> are_quantiles(deltas@, q),
{
    if flat {
        background.delta_e
    } else {
        quantiles(deltas)
    }
}

/// How wide the band is on which texture is measured and a field may be read: a
/// part of the short side, or the border where that is wider.
pub open spec fn band_of(width: u32, height: u32, border: u32) -> u32 {
    let part = (if width < height { width } else { height }) / TEXTURE_BAND_DIVISOR;
    if part < border {
        border
    } else {
        part
    }
}

/// How wide the band is on which texture is measured and a field may be read.
pub fn field_band(width: u32, height: u32, border: u32) -> (r: u32)
    ensures
        r == band_of(width, height, border),
{
    let short: u32 = if width < height { width } else { height };
    let band: u32 = short / TEXTURE_BAND_DIVISOR;
    if band < border {
        border
    } else {
        band
    }
}

/// The strengths of the edges at some places.
pub open spec fn strengths_at(image: &RgbaImage, places: Seq<int>, s: Seq<u64>) -> bool {
    &&& s.len() == places.len()
    &&& forall|j: int|
        0 <= j < s.len() ==> #[trigger] s[j] == strength(
            image,
            places[j] % image.w() as int,
            places[j] / image.w() as int,
        )
}

/// The median and the upper tail of a list of strengths.
pub open spec fn is_texture(s: Seq<u64>, t: GradientQuantiles) -> bool {
    exists|q: DeltaEQuantiles| #[trigger] are_quantiles(s, q) && t.p50 == q.p50 && t.p90 == q.p90
}

/// The texture of the background: how strong edges are along the border, over as
/// many pixels as `band` is wide.
pub fn border_gradient_quantiles(image: &RgbaImage, band: u32) -> (r: GradientQuantiles)
    requires
        image.wf(),
    ensures
        exists|s: Seq<u64>| #[trigger]
            strengths_at(image, ones(shown(image, band as int)), s) && is_texture(s, r),
        r.p90 <= MAX_STRENGTH,
{
    let places: Vec<usize> = for_each_border_pixel(image, band);
    let all: Vec<u64> = gradient_magnitude(image);
    let ghost set = shown(image, band as int);
    let ghost list = ones(set);
    let ghost (w, h) = (image.w() as int, image.h() as int);
    let n: usize = places.len();
    let mut keys: Vec<u64> = Vec::with_capacity(n);
    proof {
        lemma_ones(set);
        assert(places@.map_values(|v: usize| v as int).len() == places@.len());
    }
    let mut j: usize = 0;
    while j < n
        invariant
            image.wf(),
            w == image.w(),
            h == image.h(),
            all@.len() == image@.len() == set.len(),
            forall|x: int, y: int|
                image.inside(x, y) ==> #[trigger] all@[at(image.w() as int, x, y)] == strength(image, x, y),
            forall|i: int| 0 <= i < all@.len() ==> #[trigger] all@[i] <= MAX_STRENGTH,
            list == ones(set),
            n == places@.len() == list.len(),
            lists(places@, set),
            forall|k: int| 0 <= k < list.len() ==> 0 <= #[trigger] list[k] < set.len(),
            j <= n,
            keys@.len() == j,
            forall|k: int| 0 <= k < j ==> #[trigger] keys@[k] == strength(image, list[k] % w, list[k] / w),
            forall|k: int| 0 <= k < j ==> #[trigger] keys@[k] <= MAX_STRENGTH,
        decreases n - j,
    {
        let i: usize = places[j];
        proof {
            assert(places@.map_values(|v: usize| v as int)[j as int] == i);
            assert(list[j as int] == i);
            lemma_small_place(w, h, i as int);
            assert(all@[at(w, i as int % w, i as int / w)] == strength(image, i as int % w, i as int / w));
        }
        keys.push(all[i]);
        j += 1;
    }
    let ghost s = keys@;
    let q: DeltaEQuantiles = quantiles(keys);
    proof {
        assert(strengths_at(image, list, s));
        if s.len() > 0 {
            lemma_ranked_in(s, (9 * (s.len() - 1) + 5) / 10, q.p90);
            let k = choose|k: int| 0 <= k < s.len() && s[k] == q.p90;
            assert(s[k] <= MAX_STRENGTH);
        }
    }
    let r: GradientQuantiles = GradientQuantiles { p50: q.p50, p90: q.p90 };
    assert(are_quantiles(s, q) && r.p50 == q.p50 && r.p90 == q.p90);
    r
}

/// Which model of the background is asked for.
#[derive(Debug, Clone, Copy, PartialEq, Eq, Structural)]
pub enum BackgroundModel {
    Auto,
    Flat,
    Field,
}

impl Default for BackgroundModel {
    fn default() -> (r: Self)
        ensures
            r == BackgroundModel::Auto,
    {
        BackgroundModel::Auto
    }
}

/// Which model is used.
#[derive(Debug, Clone, Copy, PartialEq, Eq, Structural)]
pub enum ResolvedModel {
    Flat,
    Field,
}

impl BackgroundModel {
    /// Left to itself, the model is one colour on a uniform background and a field
    /// elsewhere.
    pub open spec fn resolved(self, background: &BackgroundEstimate) -> ResolvedModel {
        match self {
            BackgroundModel::Flat => ResolvedModel::Flat,
            BackgroundModel::Field => ResolvedModel::Field,
            BackgroundModel::Auto => if background.uniform() {
                ResolvedModel::Flat
            } else {
                ResolvedModel::Field
            },
        }
    }

    pub fn resolve(self, background: &BackgroundEstimate) -> (r: ResolvedModel)
        ensures
            r == self.resolved(background),
    {
        match self {
            BackgroundModel::Flat => ResolvedModel::Flat,
            BackgroundModel::Field => ResolvedModel::Field,
            BackgroundModel::Auto => if background.is_uniform() {
                ResolvedModel::Flat
            } else {
                ResolvedModel::Field
            },
        }
    }
}

impl ResolvedModel {
    pub open spec fn text(self) -> Seq<char> {
        match self {
            ResolvedModel::Flat => "flat"@,
            ResolvedModel::Field => "field"@,
        }
    }

    pub fn as_str(self) -> (r: &'static str)
        ensures
            r@ == self.text(),
    {
        match self {
            ResolvedModel::Flat => "flat",
            ResolvedModel::Field => "field",
        }
    }
}

/// What is known to be background before the fill. Each part may be missing.
#[derive(Clone, Copy)]
pub struct KnownBackground<'a> {
    /// The width of the band along the border, 0 for none.
    pub band: u32,
    /// Everything outside this box.
    pub outside_bbox: Option<Rect>,
    /// Everything outside the widened box of the product.
    pub outside_subject: Option<Rect>,
    /// What is marked as background.
    pub constraints: Option<&'a Constraints>,
    /// What a first fill has reached.
    pub filled: Option<&'a [bool]>,
}

/// `(x, y)` lies outside the box, if there is one.
pub open spec fn outside_of(r: Option<Rect>, x: int, y: int) -> bool {
    match r {
        Some(b) => !in_rect(b, x, y),
        None => false,
    }
}

impl<'a> KnownBackground<'a> {
    pub open spec fn wf(&self) -> bool {
        self.constraints matches Some(c) ==> c.wf()
    }

    /// `(x, y)` lies on the band.
    pub open spec fn banded(&self, x: int, y: int, w: int, h: int) -> bool {
        self.band > 0 && near_border(w, h, self.band as int, x, y)
    }

    /// `(x, y)` is marked as background. Marks for another size say nothing.
    pub open spec fn marked(&self, x: int, y: int, w: int, h: int) -> bool {
        match self.constraints {
            Some(c) => c.w() == w && c.h() == h && c.bg()[at(w, x, y)],
            None => false,
        }
    }

    /// `(x, y)` was reached by the first fill.
    pub open spec fn reached(&self, x: int, y: int, w: int) -> bool {
        match self.filled {
            Some(f) => at(w, x, y) < f@.len() && f@[at(w, x, y)],
            None => false,
        }
    }

    /// `(x, y)` is known to be background.
    pub open spec fn knows(&self, x: int, y: int, w: int, h: int) -> bool {
        ||| self.banded(x, y, w, h)
        ||| outside_of(self.outside_bbox, x, y)
        ||| outside_of(self.outside_subject, x, y)
        ||| self.marked(x, y, w, h)
        ||| self.reached(x, y, w)
    }

    pub fn on_band(&self, x: u32, y: u32, w: u32, h: u32) -> (r: bool)
        requires
            x < w,
            y < h,
        ensures
            r == self.banded(x as int, y as int, w as int, h as int),
    {
        self.band > 0 && (x < self.band || y < self.band || w - x <= self.band || h - y <= self.band)
    }

    pub fn holds(&self, x: u32, y: u32, i: usize, w: u32, h: u32) -> (r: bool)
        requires
            self.wf(),
            x < w,
            y < h,
            i == at(w as int, x as int, y as int),
        ensures
            r == self.knows(x as int, y as int, w as int, h as int),
    {
        if self.on_band(x, y, w, h) {
            return true;
        }
        if let Some((x1, y1, x2, y2)) = self.outside_bbox {
            if x < x1 || x > x2 || y < y1 || y > y2 {
                return true;
            }
        }
        if let Some((x1, y1, x2, y2)) = self.outside_subject {
            if x < x1 || x > x2 || y < y1 || y > y2 {
                return true;
            }
        }
        if let Some(c) = self.constraints {
            if c.width() == w && c.height() == h {
                proof {
                    lemma_at_bound(w as int, h as int, x as int, y as int);
                }
                if c.has_bg(i) {
                    return true;
                }
            }
        }
        if let Some(f) = self.filled {
            if i < f.len() && f[i] {
                return true;
            }
        }
        false
    }

    /// Nothing in a rectangle is known, as far as the boxes and the band tell.
    /// Where marks or a fill are given, this is not decided.
    pub fn certainly_empty(&self, r: Rect, w: u32, h: u32) -> (empty: bool)
        requires
            rect_on(r, w as int, h as int),
        ensures
            empty <==> self.constraints is None && self.filled is None && forall|x: int, y: int|
                in_rect(r, x, y) ==> !(#[trigger] self.knows(x, y, w as int, h as int)),
    {
        if self.constraints.is_some() || self.filled.is_some() {
            return false;
        }
        let off_band: bool = self.band == 0 || (r.0 >= self.band && r.1 >= self.band && w - 1 - r.2 >= self.band && h
            - 1 - r.3 >= self.band);
        let in_bbox: bool = inside_box(r, self.outside_bbox);
        let in_subject: bool = inside_box(r, self.outside_subject);
        let empty: bool = off_band && in_bbox && in_subject;
        proof {
            let (wi, hi) = (w as int, h as int);
            if !empty {
                let p = (r.0 as int, r.1 as int);
                let q = (r.2 as int, r.3 as int);
                assert(in_rect(r, p.0, p.1) && in_rect(r, q.0, q.1));
                assert(self.knows(p.0, p.1, wi, hi) || self.knows(q.0, q.1, wi, hi));
            }
        }
        empty
    }
}

/// A rectangle lies inside a box, or there is none.
fn inside_box(r: Rect, b: Option<Rect>) -> (inside: bool)
    requires
        r.0 <= r.2,
        r.1 <= r.3,
    ensures
        inside <==> forall|x: int, y: int| in_rect(r, x, y) ==> !(#[trigger] outside_of(b, x, y)),
        inside <==> !outside_of(b, r.0 as int, r.1 as int) && !outside_of(b, r.2 as int, r.3 as int),
{
    match b {
        Some(b) => {
            let inside: bool = r.0 >= b.0 && r.1 >= b.1 && r.2 <= b.2 && r.3 <= b.3;
            proof {
                assert(in_rect(r, r.0 as int, r.1 as int) && in_rect(r, r.2 as int, r.3 as int));
                if !inside {
                    assert(outside_of(Some(b), r.0 as int, r.1 as int) || outside_of(
                        Some(b),
                        r.2 as int,
                        r.3 as int,
                    ));
                }
            }
            inside
        },
        None => true,
    }
}

/// The margin around the product: a twentieth of a side, rounded to the nearest.
pub open spec fn subject_margin(n: int) -> int {
    (n + 10) / 20
}

/// `r` is the box with a margin on every side, within the image.
pub open spec fn is_widened(bbox: Rect, w: u32, h: u32, r: Rect) -> bool {
    let (mx, my) = (subject_margin(w as int), subject_margin(h as int));
    let (right, bottom) = (if w == 0 { 0 } else { w - 1 }, if h == 0 { 0 } else { h - 1 });
    &&& r.0 == if bbox.0 < mx { 0 } else { bbox.0 - mx }
    &&& r.1 == if bbox.1 < my { 0 } else { bbox.1 - my }
    &&& r.2 == if bbox.2 + mx < right { bbox.2 + mx } else { right }
    &&& r.3 == if bbox.3 + my < bottom { bbox.3 + my } else { bottom }
}

/// Widens the box of the product, within the image. Its edge is measured on a
/// small copy, and beyond it all is taken for background.
pub fn widen_subject(bbox: Rect, w: u32, h: u32) -> (r: Rect)
    ensures
        is_widened(bbox, w, h, r),
{
    let mx: u32 = ((w as u64 + 10) / 20) as u32;
    let my: u32 = ((h as u64 + 10) / 20) as u32;
    let right: u32 = if w == 0 { 0 } else { w - 1 };
    let bottom: u32 = if h == 0 { 0 } else { h - 1 };
    (
        if bbox.0 < mx { 0 } else { bbox.0 - mx },
        if bbox.1 < my { 0 } else { bbox.1 - my },
        if bbox.2 as u64 + (mx as u64) < right as u64 { bbox.2 + mx } else { right },
        if bbox.3 as u64 + (my as u64) < bottom as u64 { bbox.3 + my } else { bottom },
    )
}

/// Where part `c` of `parts` begins on a side of `n` pixels.
pub open spec fn cut(c: int, n: int, parts: int) -> int {
    (c * n) / parts
}

/// No part is empty.
proof fn lemma_cut(c: int, n: int, parts: int)
    requires
        0 <= c < parts <= n,
    ensures
        0 <= cut(c, n, parts) < cut(c + 1, n, parts) <= n,
{
    assert(0 <= (c * n) / parts && (c * n) / parts + 1 <= ((c + 1) * n) / parts && ((c + 1) * n) / parts <= n)
        by (nonlinear_arith)
        requires
            0 <= c < parts <= n,
    ;
}

/// The size of the grid of a field: that of the image, with the long side held to
/// its limit.
pub open spec fn grid_size(w: int, h: int) -> (int, int) {
    let side = FIELD_LONG_SIDE as int;
    if w <= side && h <= side {
        (w, h)
    } else if w >= h {
        (side, if (h * side) / w < 1 { 1 } else { (h * side) / w })
    } else {
        (if (w * side) / h < 1 { 1 } else { (w * side) / h }, side)
    }
}

fn size_of_grid(w: u32, h: u32) -> (r: (u32, u32))
    requires
        0 < w,
        0 < h,
    ensures
        r.0 == grid_size(w as int, h as int).0,
        r.1 == grid_size(w as int, h as int).1,
        1 <= r.0 <= w,
        1 <= r.1 <= h,
        r.0 <= FIELD_LONG_SIDE,
        r.1 <= FIELD_LONG_SIDE,
{
    let side: u32 = FIELD_LONG_SIDE;
    if w <= side && h <= side {
        (w, h)
    } else if w >= h {
        proof {
            assert((h * 256) / (w as int) <= h && (h * 256) / (w as int) <= 256) by (nonlinear_arith)
                requires
                    256 < w,
                    0 < h <= w,
            ;
        }
        let rows: u32 = ((h as u64) * (side as u64) / (w as u64)) as u32;
        (side, if rows < 1 { 1 } else { rows })
    } else {
        proof {
            assert((w * 256) / (h as int) <= w && (w * 256) / (h as int) <= 256) by (nonlinear_arith)
                requires
                    256 < h,
                    0 < w <= h,
            ;
        }
        let cols: u32 = ((w as u64) * (side as u64) / (h as u64)) as u32;
        (if cols < 1 { 1 } else { cols }, side)
    }
}

/// A cell of the grid as a rectangle of the image.
pub open spec fn cell_rect(w: int, h: int, cols: int, rows: int, cx: int, cy: int) -> Rect {
    (
        cut(cx, w, cols) as u32,
        cut(cy, h, rows) as u32,
        (cut(cx + 1, w, cols) - 1) as u32,
        (cut(cy + 1, h, rows) - 1) as u32,
    )
}

fn cell_at(w: u32, h: u32, cols: u32, rows: u32, cx: u32, cy: u32) -> (r: Rect)
    requires
        cx < cols <= w,
        cy < rows <= h,
    ensures
        r == cell_rect(w as int, h as int, cols as int, rows as int, cx as int, cy as int),
        rect_on(r, w as int, h as int),
{
    proof {
        lemma_cut(cx as int, w as int, cols as int);
        lemma_cut(cy as int, h as int, rows as int);
        assert((cx + 1) * w <= 0xffff_ffff * 0xffff_ffff && (cy + 1) * h <= 0xffff_ffff * 0xffff_ffff && 0 <= cx * w
            <= (cx + 1) * w && 0 <= cy * h <= (cy + 1) * h) by (nonlinear_arith)
            requires
                0 <= cx < cols <= w <= 0xffff_ffff,
                0 <= cy < rows <= h <= 0xffff_ffff,
        ;
    }
    let (wl, hl): (u64, u64) = (w as u64, h as u64);
    let x0: u32 = ((cx as u64) * wl / (cols as u64)) as u32;
    let y0: u32 = ((cy as u64) * hl / (rows as u64)) as u32;
    let x1: u32 = ((cx as u64 + 1) * wl / (cols as u64)) as u32;
    let y1: u32 = ((cy as u64 + 1) * hl / (rows as u64)) as u32;
    (x0, y0, x1 - 1, y1 - 1)
}

/// The pixels a field may be read from: opaque, known to be background, and not
/// too far in colour.
pub open spec fn material(image: &RgbaImage, known: &KnownBackground<'_>, passes: Seq<bool>) -> Seq<bool> {
    let (w, h) = (image.w() as int, image.h() as int);
    Seq::new(image@.len(), |i: int| image@[i][3] >= OPAQUE && known.knows(i % w, i / w, w, h) && passes[i])
}

/// The opaque pixels of the band.
pub open spec fn band_plane(image: &RgbaImage, known: &KnownBackground<'_>) -> Seq<bool> {
    let (w, h) = (image.w() as int, image.h() as int);
    Seq::new(image@.len(), |i: int| image@[i][3] >= OPAQUE && known.banded(i % w, i / w, w, h))
}

/// Those of them that are not too far in colour.
pub open spec fn band_material(image: &RgbaImage, known: &KnownBackground<'_>, passes: Seq<bool>) -> Seq<bool> {
    Seq::new(image@.len(), |i: int| band_plane(image, known)[i] && passes[i])
}

/// How many samples a cell needs.
pub open spec fn needed(r: Rect) -> int {
    let area = (r.2 - r.0 + 1) * (r.3 - r.1 + 1);
    if area / (MIN_CELL_SAMPLE_DIVISOR as int) < 1 {
        1
    } else {
        area / (MIN_CELL_SAMPLE_DIVISOR as int)
    }
}

/// The colour of a cell: the median of its samples, if there are enough.
pub open spec fn is_cell(image: &RgbaImage, flags: Seq<bool>, r: Rect, v: Option<[u8; 3]>) -> bool {
    let s = set_in(flags, image.w() as int, r);
    match v {
        None => tally(s) < needed(r),
        Some(c) => tally(s) >= needed(r) && exists|samples: Seq<[u8; 3]>| #[trigger]
            colours_at(image, ones(s), samples) && is_median_rgb(samples, c),
    }
}

/// The cells of a field as far as they can be read from the image.
pub struct FieldGrid {
    pub cols: u32,
    pub rows: u32,
    pub colours: Vec<Option<[u8; 3]>>,
}

impl FieldGrid {
    /// Every cell is what the image says.
    pub open spec fn reads(&self, image: &RgbaImage, flags: Seq<bool>) -> bool {
        let (w, h) = (image.w() as int, image.h() as int);
        let (cols, rows) = (self.cols as int, self.rows as int);
        &&& (cols, rows) == grid_size(w, h)
        &&& self.colours@.len() == cols * rows
        &&& forall|cx: int, cy: int|
            on_plane(cols, rows, cx, cy) ==> is_cell(
                image,
                flags,
                cell_rect(w, h, cols, rows, cx, cy),
                #[trigger] self.colours@[at(cols, cx, cy)],
            )
    }
}

/// A field as far as it can be read, and how much of the band is background.
pub struct FieldEstimate {
    /// Without a grid one colour has to do.
    pub grid: Option<FieldGrid>,
    pub band_seen: u64,
    pub band_kept: u64,
}

/// Enough of the band is background for a field: what is left otherwise is what
/// shows between the products.
pub open spec fn enough_band(seen: int, kept: int) -> bool {
    seen == 0 || 10 * kept >= 3 * seen
}

/// Tells three planes: the pixels a cell may be read from, those of the band, and
/// those of the band that pass.
fn planes(image: &RgbaImage, known: &KnownBackground<'_>, passes: &[bool]) -> (r: (Vec<bool>, Vec<bool>, Vec<bool>))
    requires
        image.wf(),
        known.wf(),
        passes@.len() == image@.len(),
    ensures
        r.0@ == material(image, known, passes@),
        r.1@ == band_plane(image, known),
        r.2@ == band_material(image, known, passes@),
{
    let w: u32 = image.width();
    let h: u32 = image.height();
    let ghost (wi, hi) = (w as int, h as int);
    let pixels: &[[u8; 4]] = image.pixels();
    let n: usize = pixels.len();
    let ghost (a, b, c) = (material(image, known, passes@), band_plane(image, known), band_material(image, known, passes@));
    let mut usable: Vec<bool> = Vec::with_capacity(n);
    let mut seen: Vec<bool> = Vec::with_capacity(n);
    let mut kept: Vec<bool> = Vec::with_capacity(n);
    let mut i: usize = 0;
    while i < n
        invariant
            image.wf(),
            known.wf(),
            wi == w == image.w(),
            hi == h == image.h(),
            pixels@ == image@,
            n == image@.len() == passes@.len() == wi * hi,
            a == material(image, known, passes@),
            b == band_plane(image, known),
            c == band_material(image, known, passes@),
            i <= n,
            usable@.len() == i,
            seen@.len() == i,
            kept@.len() == i,
            forall|k: int| 0 <= k < i ==> #[trigger] usable@[k] == a[k],
            forall|k: int| 0 <= k < i ==> #[trigger] seen@[k] == b[k],
            forall|k: int| 0 <= k < i ==> #[trigger] kept@[k] == c[k],
        decreases n - i,
    {
        proof {
            lemma_small_place(wi, hi, i as int);
        }
        let x: u32 = (i % (w as usize)) as u32;
        let y: u32 = (i / (w as usize)) as u32;
        let opaque: bool = pixels[i][3] >= OPAQUE;
        let on: bool = opaque && known.on_band(x, y, w, h);
        usable.push(opaque && passes[i] && known.holds(x, y, i, w, h));
        seen.push(on);
        kept.push(on && passes[i]);
        i += 1;
    }
    assert(usable@ =~= a);
    assert(seen@ =~= b);
    assert(kept@ =~= c);
    (usable, seen, kept)
}

/// The colour of one cell.
fn read_cell(image: &RgbaImage, usable: &Vec<bool>, r: Rect) -> (v: Option<[u8; 3]>)
    requires
        image.wf(),
        usable@.len() == image@.len(),
        rect_on(r, image.w() as int, image.h() as int),
    ensures
        is_cell(image, usable@, r, v),
{
    let w: u32 = image.width();
    let h: u32 = image.height();
    let ghost s = set_in(usable@, w as int, r);
    let places: Vec<usize> = places_in(usable.as_slice(), w, h, r);
    proof {
        lemma_tally_bound(s);
        assert(places@.map_values(|v: usize| v as int).len() == places@.len());
        assert((r.2 - r.0 + 1) * (r.3 - r.1 + 1) <= w * h && 0 < (r.2 - r.0 + 1) * (r.3 - r.1 + 1)) by (nonlinear_arith)
            requires
                r.0 <= r.2 < w,
                r.1 <= r.3 < h,
        ;
    }
    let area: usize = ((r.2 - r.0) as usize + 1) * ((r.3 - r.1) as usize + 1);
    let least: usize = if area / MIN_CELL_SAMPLE_DIVISOR < 1 { 1 } else { area / MIN_CELL_SAMPLE_DIVISOR };
    if places.len() < least {
        return None;
    }
    let samples: Vec<[u8; 3]> = colours_of(image, &places, Ghost(s));
    let c: [u8; 3] = median_rgb(samples.as_slice());
    assert(colours_at(image, ones(s), samples@) && is_median_rgb(samples@, c));
    Some(c)
}

/// The key of the distance within which a pixel passes for background: twice what
/// an ordinary pixel of the border strays by, and never less than the floor. To
/// double a number is to add one to its exponent.
pub open spec fn gate_key(p50: u64) -> int {
    if p50 + DOUBLING < FIELD_GATE_FLOOR {
        FIELD_GATE_FLOOR as int
    } else {
        p50 + DOUBLING
    }
}

/// The key of the distance within which a pixel passes for background.
pub fn field_gate(background: &BackgroundEstimate) -> (r: u64)
    requires
        background.delta_e.p50 <= 0x7fd0_0000_0000_0000,
    ensures
        r == gate_key(background.delta_e.p50),
{
    let doubled: u64 = background.delta_e.p50 + DOUBLING;
    if doubled < FIELD_GATE_FLOOR {
        FIELD_GATE_FLOOR
    } else {
        doubled
    }
}

/// What can be read of a field. There is none on an empty image, where most of the
/// band is not background, or where no cell can be read.
pub open spec fn estimates(image: &RgbaImage, known: &KnownBackground<'_>, passes: Seq<bool>, r: &FieldEstimate) -> bool {
    &&& r.band_seen == tally(band_plane(image, known))
    &&& r.band_kept == tally(band_material(image, known, passes))
    &&& match r.grid {
        Some(g) => {
            &&& 0 < image.w()
            &&& 0 < image.h()
            &&& 0 < g.cols <= FIELD_LONG_SIDE
            &&& 0 < g.rows <= FIELD_LONG_SIDE
            &&& enough_band(r.band_seen as int, r.band_kept as int)
            &&& g.reads(image, material(image, known, passes))
            &&& exists|i: int| 0 <= i < g.colours@.len() && #[trigger] g.colours@[i] is Some
        },
        None => {
            ||| image.w() == 0
            ||| image.h() == 0
            ||| !enough_band(r.band_seen as int, r.band_kept as int)
            ||| exists|g: FieldGrid| #[trigger]
                g.reads(image, material(image, known, passes)) && forall|i: int|
                    0 <= i < g.colours@.len() ==> #[trigger] g.colours@[i] is None
        },
    }
}

/// Reads the cells of a field from what is known to be background. `delta` tells
/// how far each pixel is from the colour of the background; what does not pass the
/// gate is no background at all.
pub fn estimate_field(image: &RgbaImage, known: &KnownBackground<'_>, delta: &[u64], gate: u64) -> (r:
    FieldEstimate)
    requires
        image.wf(),
        known.wf(),
        delta@.len() == image@.len() <= u64::MAX,
    ensures
        estimates(image, known, close_ones(delta@, gate), &r),
{
    let passes: Vec<bool> = flags_within(delta, gate);
    let (usable, seen, kept): (Vec<bool>, Vec<bool>, Vec<bool>) = planes(image, known, passes.as_slice());
    let band_seen: u64 = count_set(seen.as_slice());
    let band_kept: u64 = count_set(kept.as_slice());
    let w: u32 = image.width();
    let h: u32 = image.height();
    if w == 0 || h == 0 || (band_seen > 0 && 10 * (band_kept as u128) < 3 * (band_seen as u128)) {
        return FieldEstimate { grid: None, band_seen, band_kept };
    }
    let (grid, any): (FieldGrid, bool) = read_cells(image, known, passes.as_slice(), &usable);
    if any {
        FieldEstimate { grid: Some(grid), band_seen, band_kept }
    } else {
        FieldEstimate { grid: None, band_seen, band_kept }
    }
}

/// Reads all cells, and says whether any could be read.
fn read_cells(image: &RgbaImage, known: &KnownBackground<'_>, passes: &[bool], usable: &Vec<bool>) -> (r: (FieldGrid, bool))
    requires
        image.wf(),
        known.wf(),
        passes@.len() == image@.len() <= u64::MAX,
        usable@ == material(image, known, passes@),
        0 < image.w(),
        0 < image.h(),
    ensures
        r.0.reads(image, material(image, known, passes@)),
        0 < r.0.cols <= FIELD_LONG_SIDE,
        0 < r.0.rows <= FIELD_LONG_SIDE,
        r.1 ==> exists|i: int| 0 <= i < r.0.colours@.len() && #[trigger] r.0.colours@[i] is Some,
        !r.1 ==> forall|i: int| 0 <= i < r.0.colours@.len() ==> #[trigger] r.0.colours@[i] is None,
{
    let w: u32 = image.width();
    let h: u32 = image.height();
    let ghost flags = material(image, known, passes@);
    let (cols, rows): (u32, u32) = size_of_grid(w, h);
    let ghost (wi, hi, ci, ri) = (w as int, h as int, cols as int, rows as int);
    proof {
        assert(cols * rows <= 65_536) by (nonlinear_arith)
            requires
                0 <= cols <= 256,
                0 <= rows <= 256,
        ;
    }
    let n: usize = (cols as usize) * (rows as usize);
    let mut colours: Vec<Option<[u8; 3]>> = Vec::with_capacity(n);
    let mut any: bool = false;
    let mut i: usize = 0;
    while i < n
        invariant
            image.wf(),
            known.wf(),
            passes@.len() == image@.len(),
            usable@ == flags,
            flags == material(image, known, passes@),
            wi == w == image.w(),
            hi == h == image.h(),
            ci == cols,
            ri == rows,
            1 <= cols <= w,
            1 <= rows <= h,
            n == ci * ri,
            i <= n,
            colours@.len() == i,
            forall|k: int|
                0 <= k < i ==> is_cell(
                    image,
                    flags,
                    cell_rect(wi, hi, ci, ri, k % ci, k / ci),
                    #[trigger] colours@[k],
                ),
            any <==> exists|k: int| 0 <= k < i && #[trigger] colours@[k] is Some,
        decreases n - i,
    {
        proof {
            lemma_small_place(ci, ri, i as int);
        }
        let cx: u32 = (i % (cols as usize)) as u32;
        let cy: u32 = (i / (cols as usize)) as u32;
        let r: Rect = cell_at(w, h, cols, rows, cx, cy);
        let v: Option<[u8; 3]> = if known.certainly_empty(r, w, h) {
            proof {
                lemma_no_material(image, known, passes@, r);
            }
            None
        } else {
            read_cell(image, usable, r)
        };
        let ghost had = colours@;
        colours.push(v);
        if v.is_some() {
            any = true;
            assert(colours@[i as int] is Some);
        }
        proof {
            assert forall|k: int| 0 <= k < i implies #[trigger] colours@[k] == had[k] by {}
            if exists|k: int| 0 <= k < i && #[trigger] had[k] is Some {
                let k = choose|k: int| 0 <= k < i && #[trigger] had[k] is Some;
                assert(colours@[k] is Some);
            }
        }
        i += 1;
    }
    let grid: FieldGrid = FieldGrid { cols, rows, colours };
    proof {
        assert forall|cx: int, cy: int| on_plane(ci, ri, cx, cy) implies is_cell(
            image,
            flags,
            cell_rect(wi, hi, ci, ri, cx, cy),
            #[trigger] grid.colours@[at(ci, cx, cy)],
        ) by {
            lemma_at_bound(ci, ri, cx, cy);
            lemma_at_split(ci, cx, cy);
        }
        assert(grid.reads(image, flags));
    }
    (grid, any)
}

/// Where nothing is known there is no material, so that the cell stays open.
proof fn lemma_no_material(image: &RgbaImage, known: &KnownBackground<'_>, passes: Seq<bool>, r: Rect)
    requires
        image.wf(),
        rect_on(r, image.w() as int, image.h() as int),
        forall|x: int, y: int|
            in_rect(r, x, y) ==> !(#[trigger] known.knows(x, y, image.w() as int, image.h() as int)),
    ensures
        is_cell(image, material(image, known, passes), r, None),
{
    let flags = material(image, known, passes);
    let s = set_in(flags, image.w() as int, r);
    assert forall|i: int| 0 <= i < s.len() implies !(#[trigger] s[i]) by {
        if s[i] {
            assert(known.knows(i % (image.w() as int), i / (image.w() as int), image.w() as int, image.h() as int));
        }
    }
    lemma_tally_zero(s);
}

} // verus!
