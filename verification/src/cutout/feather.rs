//! Feathering of the boundary of a mask.
//!
//! A fill leaves nothing but 0 and 255, which makes ragged outlines. Feathering
//! gives the boundary a width: inside stays 255, outside stays 0.
use vstd::prelude::*;

use crate::cutout::blur::{blur_columns, blur_rows, columns_smoothed, rows_smoothed};
use crate::cutout::mask::Mask;
use crate::cutout::morphology::slice_copy;

verus! {

/// A mask averaged along its rows and then along its columns.
pub open spec fn feathered(m: Seq<u8>, w: int, h: int, radius: int) -> Seq<u8> {
    columns_smoothed(rows_smoothed(m, w, 0, 0, w, h, radius), w, 0, 0, w, h, radius)
}

/// Smooths a mask, so that its boundary becomes a ramp. Radius 0 leaves it as it
/// is.
pub fn feather(mask: &Mask, radius: u32) -> (out: Mask)
    requires
        mask.wf(),
    ensures
        out.wf(),
        out.w() == mask.w(),
        out.h() == mask.h(),
        radius == 0 ==> out@ == mask@,
        radius > 0 ==> out@ == feathered(mask@, mask.w() as int, mask.h() as int, radius as int),
{
    if radius == 0 {
        return mask.clone();
    }
    let rows: Mask = blur(mask, radius, true);
    blur(&rows, radius, false)
}

/// One pass of the average, along rows or along columns.
fn blur(mask: &Mask, radius: u32, horizontal: bool) -> (out: Mask)
    requires
        mask.wf(),
    ensures
        out.wf(),
        out.w() == mask.w(),
        out.h() == mask.h(),
        out@ == if horizontal {
            rows_smoothed(mask@, mask.w() as int, 0, 0, mask.w() as int, mask.h() as int, radius as int)
        } else {
            columns_smoothed(mask@, mask.w() as int, 0, 0, mask.w() as int, mask.h() as int, radius as int)
        },
{
    let w: usize = mask.width() as usize;
    let h: usize = mask.height() as usize;
    let mut data: Vec<u8> = slice_copy(mask.as_slice());
    let ghost m = data@;
    if w > 0 && h > 0 {
        if horizontal {
            blur_rows(&mut data, w, h, 0, 0, w, h, radius as usize);
        } else {
            blur_columns(&mut data, w, h, 0, 0, w, h, radius as usize);
        }
    } else {
        proof {
            assert(w * h == 0) by (nonlinear_arith)
                requires
                    w == 0 || h == 0,
            ;
            assert(m =~= rows_smoothed(m, w as int, 0, 0, w as int, h as int, radius as int));
            assert(m =~= columns_smoothed(m, w as int, 0, 0, w as int, h as int, radius as int));
        }
    }
    Mask::from_values(mask.width(), mask.height(), data)
}

} // verus!
