use kiri::cutout::connect::components;
use kiri::cutout::contour::{background_distance, contour_distance_px, farther_than};
use kiri::cutout::guided::{apply, plan_tile, Solved};
use kiri::cutout::integral::Integral;
use kiri::cutout::luma::luma;
use kiri::cutout::mask::Mask;
use kiri::cutout::morphology::{separable, BitPlane};
use kiri::cutout::sliding::{farthest, local_max, sliding_max};
use kiri::raster::RgbaImage;
use kiri::sorting::{median, sort_keys};

#[test]
fn a_plane_of_bits_lists_what_was_set() {
    let mut p = BitPlane::new(130);
    for i in [0, 63, 64, 129] {
        p.insert(i);
    }
    p.set(63, false);
    assert_eq!(p.for_each_set(), vec![0, 64, 129]);
    assert!(p.get(129) && !p.get(63) && p.contains(64));
    assert!(!BitPlane::default().contains(5));
    assert_eq!(p.len(), 130);
}

#[test]
fn a_plane_grows_and_shrinks_by_squares() {
    let mut p = BitPlane::new(25);
    p.insert(12);
    let grown = separable(5, 5, &p, 1, true);
    assert_eq!(grown.for_each_set(), vec![6, 7, 8, 11, 12, 13, 16, 17, 18]);
    assert_eq!(separable(5, 5, &grown, 1, false).for_each_set(), vec![12]);
    let longer = [false, true, true, true];
    assert_eq!(separable(3, 1, longer.as_slice(), 0, true).for_each_set(), vec![1, 2]);
    assert_eq!(separable(3, 1, longer.as_slice(), 1, false).for_each_set(), vec![2]);
}

#[test]
fn an_integral_image_sums_any_rectangle() {
    let values: Vec<[u64; 2]> = (0..12).map(|i| [i, 1]).collect();
    let sums = Integral::<2>::build(4, 3, &values);
    assert_eq!(sums.sum(0, 0, 3, 2), [66, 12]);
    assert_eq!(sums.sum(1, 1, 2, 2), [5 + 6 + 9 + 10, 4]);
    assert_eq!(sums.sum(3, 0, 3, 0), [3, 1]);
}

#[test]
fn a_moving_maximum_is_that_of_its_window() {
    let line = [3u128, 1, 4, 1, 5, 9, 2, 6];
    assert_eq!(sliding_max(&line, 0), line);
    assert_eq!(sliding_max(&line, 1), [3, 4, 4, 5, 9, 9, 9, 6]);
    assert_eq!(sliding_max(&line, 100), [9; 8]);
    assert_eq!(local_max(&[1, 0, 0, 0, 0, 2], 3, 2, 1), [1, 2, 2, 1, 2, 2]);
    assert_eq!(farthest(&[0, 7, 7, 0, 9, 0], 3, 2, 0, 0, 2, 0), Some(1));
    assert_eq!(farthest(&[0, 0, 0, 0, 9, 0], 3, 2, 0, 0, 2, 0), None);
}

#[test]
fn sorted_keys_have_their_upper_median() {
    assert_eq!(sort_keys(vec![3, 1, 2, 3]), vec![1, 2, 3, 3]);
    assert_eq!(median(vec![4, 1, 3, 2]), Some(3));
    assert_eq!(median(Vec::new()), None);
}

#[test]
fn components_come_in_the_order_of_their_first_place() {
    let mut p = BitPlane::new(9);
    for i in [0, 4, 2, 5] {
        p.insert(i);
    }
    let sides = components(3, 3, &p, false);
    assert_eq!(sides.iter().map(|c| c[0]).collect::<Vec<_>>(), vec![0, 2]);
    assert_eq!(sides[1].len(), 3);
    assert_eq!(components(3, 3, &p, true).len(), 1);
}

#[test]
fn distances_are_counted_in_thirds() {
    let d = contour_distance_px(5, 5, &[(2, 2)]).unwrap();
    assert_eq!((d[12], d[13], d[18], d[24]), (0, 3, 4, 8));
    assert!(contour_distance_px(0, 5, &[]).is_none() || contour_distance_px(0, 5, &[]).unwrap().is_empty());
    let far = farther_than(5, 5, &[(2, 2)], 1);
    assert!(!far.get(13) && far.get(18));
    let mut mask = Mask::new(5, 1, 255);
    mask.set(0, 0, 0);
    assert_eq!(background_distance(&mask), vec![0, 1, 2, 3, 4]);
}

#[test]
fn the_filter_moves_only_what_colour_has_decided() {
    let alpha = Mask::new(4, 1, 200);
    let mut solved = Solved::new(4);
    solved.set(1);
    solved.set(2);
    let out = apply(&alpha, &[0, 2, 0, 2], &solved, &[9, 9, 9, 9]);
    assert_eq!(out.as_slice(), [200, 9, 200, 200]);
    let mut off = Solved::default();
    off.set(1);
    assert!(!off.get(1));
}

#[test]
fn a_tile_is_planned_around_its_band() {
    let mut band = vec![0u8; 20 * 20];
    band[5 * 20 + 6] = 2;
    band[9 * 20 + 8] = 1;
    let tile = plan_tile(&band, 20, 20, 0, 0, 3).unwrap();
    assert_eq!(tile.band, (6, 5, 8, 9));
    assert_eq!(tile.coefficients, (3, 2, 11, 12));
    assert_eq!(tile.sums, (0, 0, 14, 15));
    assert!(plan_tile(&vec![0u8; 400], 20, 20, 0, 0, 3).is_none());
}

#[test]
fn the_luminance_of_grey_is_grey() {
    for v in [0u8, 1, 63, 127, 128, 200, 255] {
        assert_eq!(luma([v, v, v, 0]), v);
    }
    assert_eq!(luma([255, 0, 0, 255]), 54);
    assert_eq!(luma([0, 255, 0, 255]), 182);
    assert_eq!(luma([0, 0, 255, 255]), 18);
}

#[test]
fn a_raster_needs_as_many_pixels_as_it_has_places() {
    assert!(RgbaImage::from_pixels(2, 2, vec![[0; 4]; 3]).is_none());
    let image = RgbaImage::from_pixels(2, 1, vec![[1, 2, 3, 4], [5, 6, 7, 8]]).unwrap();
    assert_eq!(image.get_pixel(1, 0), [5, 6, 7, 8]);
    assert_eq!(image.into_pixels().len(), 2);
}
