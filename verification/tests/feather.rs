use kiri::cutout::feather::feather;
use kiri::cutout::mask::Mask;

fn half_and_half(w: u32, h: u32) -> Mask {
    let mut mask = Mask::new(w, h, 0);
    for y in 0..h {
        for x in 0..w / 2 {
            mask.set(x, y, 255);
        }
    }
    mask
}

#[test]
fn feather_radius_zero_is_the_identity() {
    let mask = half_and_half(10, 4);
    assert_eq!(feather(&mask, 0), mask);
}

#[test]
fn the_interior_stays_fully_opaque() {
    let mask = half_and_half(20, 6);
    let out = feather(&mask, 1);
    assert_eq!(out.get(2, 3), 255, "内部が薄くなっている");
}

#[test]
fn the_exterior_stays_fully_transparent() {
    let mask = half_and_half(20, 6);
    let out = feather(&mask, 1);
    assert_eq!(out.get(17, 3), 0, "外部に色が漏れている");
}

#[test]
fn the_boundary_becomes_a_ramp() {
    let mask = half_and_half(20, 6);
    let out = feather(&mask, 2);
    let values: Vec<u8> = (6..14).map(|x| out.get(x, 3)).collect();
    assert!(
        values.windows(2).all(|w| w[0] >= w[1]),
        "境界が単調でない: {values:?}"
    );
    assert!(
        values.iter().any(|&v| v > 0 && v < 255),
        "中間値が生まれていない: {values:?}"
    );
}

#[test]
fn a_larger_radius_produces_a_wider_transition() {
    let mask = half_and_half(40, 6);
    let narrow = feather(&mask, 1);
    let wide = feather(&mask, 4);
    let count = |m: &Mask| {
        (0..40)
            .filter(|&x| {
                let v = m.get(x, 3);
                v > 0 && v < 255
            })
            .count()
    };
    assert!(
        count(&wide) > count(&narrow),
        "半径を広げても遷移幅が変わらない"
    );
}

#[test]
fn an_all_foreground_mask_is_unchanged() {
    let mask = Mask::new(8, 8, 255);
    assert_eq!(feather(&mask, 2), mask, "全面前景が縁で削られている");
}
