use kiri::cutout::cells::{fill_from_nearest, Sums, RIM_LINEAR_ONE};
use kiri::cutout::local_colour::{build, Lean, LocalColours, Role};
use kiri::raster::RgbaImage;

fn to_linear(v: u8) -> f64 {
    let c = f64::from(v) / 255.0;
    if c <= 0.040_45 {
        c / 12.92
    } else {
        ((c + 0.055) / 1.055).powf(2.4)
    }
}

fn rim_table() -> Vec<u32> {
    (0..=255u8).map(|v| (to_linear(v) * f64::from(RIM_LINEAR_ONE)).round() as u32).collect()
}

fn gather(image: &RgbaImage, role: impl Fn(u32) -> Role) -> LocalColours {
    let (w, h) = (image.width(), image.height());
    let roles: Vec<Role> = (0..w * h).map(|i| role(i % w)).collect();
    build(image, (0, 0, w - 1, h - 1), 1000, &roles, &rim_table())
}

fn scene(edge: [u8; 3]) -> (RgbaImage, LocalColours) {
    let (w, h) = (60u32, 40u32);
    let bg = [250u8, 250, 249];
    let mut image = RgbaImage::from_pixel(w, h, [bg[0], bg[1], bg[2], 255]);
    for y in 0..h {
        for x in 0..30 {
            image.put_pixel(x, y, [40, 40, 45, 255]);
        }
        image.put_pixel(30, y, [edge[0], edge[1], edge[2], 255]);
    }
    let grid = gather(&image, |x| {
        if x < 29 {
            Role::Foreground
        } else if x > 31 {
            Role::Background
        } else {
            Role::Skip
        }
    });
    (image, grid)
}

fn lean_at(edge: [u8; 3]) -> Option<Lean> {
    let (image, grid) = scene(edge);
    let p = image.get_pixel(30, 20);
    grid.classify(grid.cell(30, 20), p, &rim_table())
}

#[test]
fn a_background_coloured_pixel_leans_to_the_background() {
    assert_eq!(lean_at([250, 250, 249]), Some(Lean::Background));
}

#[test]
fn a_product_coloured_pixel_leans_to_the_foreground() {
    assert_eq!(lean_at([40, 40, 45]), Some(Lean::Foreground));
}

#[test]
fn a_half_mixed_pixel_leans_to_neither_side() {
    let lut: Vec<f64> = (0..=255u8).map(to_linear).collect();
    let mix = |a: u8, b: u8| -> u8 {
        let v = (lut[a as usize] + lut[b as usize]) / 2.0;
        let s = if v <= 0.003_130_8 {
            v * 12.92
        } else {
            1.055 * v.powf(1.0 / 2.4) - 0.055
        };
        (s * 255.0).round() as u8
    };
    let edge = [mix(40, 250), mix(40, 250), mix(45, 249)];
    assert_eq!(lean_at(edge), Some(Lean::Neither));
}

#[test]
fn local_colour_a_pale_product_on_white_is_not_judged() {
    let (w, h) = (60u32, 40u32);
    let bg = [250u8, 250, 249];
    let mut image = RgbaImage::from_pixel(w, h, [bg[0], bg[1], bg[2], 255]);
    for y in 0..h {
        for x in 0..=30 {
            image.put_pixel(x, y, [248, 248, 247, 255]);
        }
    }
    let grid = gather(&image, |x| {
        if x < 29 {
            Role::Foreground
        } else if x > 31 {
            Role::Background
        } else {
            Role::Skip
        }
    });
    let p = image.get_pixel(30, 20);
    assert_eq!(grid.classify(grid.cell(30, 20), p, &rim_table()), None);
}

#[test]
fn a_grid_without_any_foreground_answers_nothing() {
    let image = RgbaImage::from_pixel(60, 40, [250, 250, 249, 255]);
    let grid = gather(&image, |_| Role::Background);
    let p = image.get_pixel(30, 20);
    assert_eq!(grid.classify(grid.cell(30, 20), p, &rim_table()), None);
}

#[test]
fn the_leans_of_an_image_are_those_of_its_cells() {
    let (image, grid) = scene([250, 250, 249]);
    let leans = grid.leans(&image, &rim_table());
    assert_eq!(leans[20 * 60 + 30], Some(Lean::Background));
    assert_eq!(leans[20 * 60 + 25], Some(Lean::Foreground));
    assert_eq!(leans[20 * 60 + 2], None);
}

fn lent(gw: usize, gh: usize, sources: &[(usize, u64)], limit: u64) -> Vec<u64> {
    let mut cells = vec![Sums { rgb: [0; 3], squares: 0, n: 0 }; gw * gh];
    for &(i, red) in sources {
        cells[i] = Sums { rgb: [red, 0, 0], squares: 0, n: 1 };
    }
    fill_from_nearest(&mut cells, gw, gh, limit);
    cells.iter().map(|c| c.rgb[0]).collect()
}

#[test]
fn a_cell_borrows_from_the_nearest_within_reach() {
    assert_eq!(lent(6, 1, &[(0, 7)], 9), [7, 7, 7, 7, 0, 0]);
    assert_eq!(lent(5, 1, &[(0, 7), (4, 8)], 90), [7, 7, 7, 8, 8]);
    assert_eq!(lent(3, 3, &[(8, 7)], 4), [0, 0, 0, 0, 7, 7, 0, 7, 7]);
}

#[test]
fn of_equally_near_cells_the_first_that_is_met_lends() {
    assert_eq!(lent(3, 1, &[(0, 7), (2, 8)], 90)[1], 7);
    assert_eq!(lent(1, 3, &[(0, 7), (2, 8)], 90)[1], 7);
    assert_eq!(lent(3, 3, &[(2, 7), (6, 8)], 90)[4], 7, "above goes before below");
    assert_eq!(lent(3, 3, &[(1, 7), (3, 8)], 90)[4], 7, "straight up goes before left");
    assert_eq!(lent(3, 3, &[(0, 7), (2, 8)], 4)[4], 7, "up to the left goes before up to the right");
    assert_eq!(lent(3, 3, &[(7, 7), (5, 8)], 90)[4], 7, "straight down goes before right");
    assert_eq!(lent(3, 3, &[(6, 7), (8, 8)], 4)[4], 7, "down to the left goes before down to the right");
}
