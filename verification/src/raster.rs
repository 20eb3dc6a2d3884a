//! A picture as the library holds it: one RGBA value for each pixel.
use vstd::prelude::*;

use crate::geometry::{at, on_plane, place};

verus! {

/// A picture of 8-bit red, green, blue and alpha, row by row.
#[derive(Debug, PartialEq, Eq)]
pub struct RgbaImage {
    width: u32,
    height: u32,
    pixels: Vec<[u8; 4]>,
}

impl View for RgbaImage {
    type V = Seq<[u8; 4]>;

    closed spec fn view(&self) -> Seq<[u8; 4]> {
        self.pixels@
    }
}

impl Clone for RgbaImage {
    fn clone(&self) -> (r: Self)
        ensures
            r@ == self@,
            r.w() == self.w(),
            r.h() == self.h(),
    {
        let n: usize = self.pixels.len();
        let mut pixels: Vec<[u8; 4]> = Vec::with_capacity(n);
        let mut i: usize = 0;
        while i < n
            invariant
                n == self.pixels@.len(),
                i <= n,
                pixels@ == self.pixels@.take(i as int),
            decreases n - i,
        {
            pixels.push(self.pixels[i]);
            assert(self.pixels@.take(i + 1) =~= self.pixels@.take(i as int).push(self.pixels@[i as int]));
            i += 1;
        }
        assert(self.pixels@.take(n as int) =~= self.pixels@);
        RgbaImage { width: self.width, height: self.height, pixels }
    }
}

impl RgbaImage {
    pub closed spec fn w(&self) -> u32 {
        self.width
    }

    pub closed spec fn h(&self) -> u32 {
        self.height
    }

    /// There is one value for each pixel.
    pub open spec fn wf(&self) -> bool {
        self@.len() == self.w() * self.h() <= usize::MAX
    }

    pub open spec fn inside(&self, x: int, y: int) -> bool {
        on_plane(self.w() as int, self.h() as int, x, y)
    }

    /// The value at `(x, y)`.
    pub open spec fn px(&self, x: int, y: int) -> [u8; 4] {
        self@[at(self.w() as int, x, y)]
    }

    /// A picture with the same value everywhere.
    pub fn from_pixel(width: u32, height: u32, pixel: [u8; 4]) -> (r: Self)
        requires
            width * height <= usize::MAX,
        ensures
            r.wf(),
            r.w() == width,
            r.h() == height,
            r@ == Seq::new((width * height) as nat, |i: int| pixel),
    {
        let n: usize = (width as usize) * (height as usize);
        let mut pixels: Vec<[u8; 4]> = Vec::with_capacity(n);
        let mut i: usize = 0;
        while i < n
            invariant
                i <= n,
                pixels@.len() == i,
                forall|k: int| 0 <= k < i ==> pixels@[k] == pixel,
            decreases n - i,
        {
            pixels.push(pixel);
            i += 1;
        }
        assert(pixels@ =~= Seq::new((width * height) as nat, |i: int| pixel));
        RgbaImage { width, height, pixels }
    }

    /// A picture over values that are already laid out row by row, if there is
    /// one for each pixel.
    pub fn from_pixels(width: u32, height: u32, pixels: Vec<[u8; 4]>) -> (r: Option<Self>)
        ensures
            r is Some <==> pixels@.len() == width * height,
            r matches Some(image) ==> image.wf() && image.w() == width && image.h() == height && image@
                == pixels@,
    {
        assert(width * height <= u64::MAX) by (nonlinear_arith)
            requires
                width <= u32::MAX,
                height <= u32::MAX,
        ;
        if (pixels.len() as u64) == (width as u64) * (height as u64) {
            Some(RgbaImage { width, height, pixels })
        } else {
            None
        }
    }

    pub fn width(&self) -> (r: u32)
        ensures
            r == self.w(),
    {
        self.width
    }

    pub fn height(&self) -> (r: u32)
        ensures
            r == self.h(),
    {
        self.height
    }

    /// The values row by row.
    pub fn pixels(&self) -> (r: &[[u8; 4]])
        ensures
            r@ == self@,
    {
        self.pixels.as_slice()
    }

    pub fn get_pixel(&self, x: u32, y: u32) -> (r: [u8; 4])
        requires
            self.wf(),
            self.inside(x as int, y as int),
        ensures
            r == self.px(x as int, y as int),
    {
        let i: usize = place(self.width as usize, x as usize, y as usize, Ghost(self.height as int));
        self.pixels[i]
    }

    pub fn put_pixel(&mut self, x: u32, y: u32, pixel: [u8; 4])
        requires
            old(self).wf(),
            old(self).inside(x as int, y as int),
        ensures
            final(self).wf(),
            final(self).w() == old(self).w(),
            final(self).h() == old(self).h(),
            final(self)@ == old(self)@.update(at(old(self).w() as int, x as int, y as int), pixel),
    {
        let i: usize = place(self.width as usize, x as usize, y as usize, Ghost(self.height as int));
        self.pixels.set(i, pixel);
    }

    /// The values, given up to the caller.
    pub fn into_pixels(self) -> (r: Vec<[u8; 4]>)
        ensures
            r@ == self@,
    {
        self.pixels
    }
}

} // verus!
