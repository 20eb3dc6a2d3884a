use kiri::cutout::despill::despill;
use kiri::cutout::mask::Mask;
use kiri::raster::RgbaImage;

const WHITE: [u8; 3] = [255, 255, 255];

fn single(color: [u8; 4]) -> RgbaImage {
    RgbaImage::from_pixel(1, 1, color)
}

fn mask_with(value: u8) -> Mask {
    Mask::new(1, 1, value)
}

#[test]
fn opaque_pixels_are_left_alone() {
    let mut img = single([190, 70, 55, 255]);
    despill(&mut img, &mask_with(255), WHITE);
    assert_eq!(img.get_pixel(0, 0), [190, 70, 55, 255]);
}

#[test]
fn nearly_transparent_pixels_are_left_alone() {
    let mut img = single([250, 250, 250, 255]);
    despill(&mut img, &mask_with(8), WHITE);
    assert_eq!(img.get_pixel(0, 0)[0], 250);
}

#[test]
fn a_half_covered_pixel_recovers_the_product_color() {
    let product = [60.0f32, 20.0, 10.0];
    let observed: [u8; 4] = [
        (0.5 * product[0] + 0.5 * 255.0).round() as u8,
        (0.5 * product[1] + 0.5 * 255.0).round() as u8,
        (0.5 * product[2] + 0.5 * 255.0).round() as u8,
        255,
    ];
    let mut img = single(observed);
    despill(&mut img, &mask_with(128), WHITE);

    let out = img.get_pixel(0, 0);
    for c in 0..3 {
        let diff = (f32::from(out[c]) - product[c]).abs();
        assert!(
            diff <= 3.0,
            "ch{c}: {} が {} に戻っていない",
            out[c],
            product[c]
        );
    }
}

#[test]
fn a_pixel_that_is_pure_background_becomes_dark_not_garbage() {
    let mut img = single([255, 255, 255, 255]);
    despill(&mut img, &mask_with(64), WHITE);
    let out = img.get_pixel(0, 0);
    assert_eq!([out[0], out[1], out[2]], [255, 255, 255]);
}

#[test]
fn works_on_a_dark_background_too() {
    let background = [10u8, 10, 10];
    let product = [200.0f32, 180.0, 160.0];
    let observed: [u8; 4] = [
        (0.5 * product[0] + 0.5 * 10.0).round() as u8,
        (0.5 * product[1] + 0.5 * 10.0).round() as u8,
        (0.5 * product[2] + 0.5 * 10.0).round() as u8,
        255,
    ];
    let mut img = single(observed);
    despill(&mut img, &mask_with(128), background);
    let out = img.get_pixel(0, 0);
    for c in 0..3 {
        assert!(
            (f32::from(out[c]) - product[c]).abs() <= 3.0,
            "ch{c}: {}",
            out[c]
        );
    }
}

#[test]
fn a_mask_may_reach_beyond_the_image() {
    let mut image = RgbaImage::from_pixel(2, 2, [150, 150, 150, 255]);
    let mut mask = Mask::new(5, 3, 255);
    mask.set(1, 1, 128);
    mask.set(3, 1, 128);
    despill(&mut image, &mask, [250, 250, 250]);
    assert_eq!(image.get_pixel(0, 0), [150, 150, 150, 255]);
    assert_eq!(image.get_pixel(1, 1), [51, 51, 51, 255]);
    assert_eq!(image.get_pixel(1, 0), [150, 150, 150, 255]);
}
