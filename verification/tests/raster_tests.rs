use rasterize::mask::Mask;
use rasterize::path::{FillRule, PathOp};
use rasterize::plotter::Plotter;
use rasterize::raster::Raster;

fn full_mask(w: u32, h: u32) -> Mask {
    let mut p = Plotter::new(w, h);
    let ops = vec![
        PathOp::Move(0, 0),
        PathOp::Line(w as i32 * 256, 0),
        PathOp::Line(w as i32 * 256, h as i32 * 256),
        PathOp::Line(0, h as i32 * 256),
        PathOp::Close(),
    ];
    p.add_ops(&ops);
    p.fill(FillRule::NonZero);
    let mut m = Mask::new(w, h);
    m.pixels.copy_from_slice(&p.mask().pixels);
    m
}

#[test]
fn composite_opaque_full_coverage_writes_the_color() {
    let m = full_mask(2, 2);
    let mut r = Raster::new(2, 2);
    r.composite(&m, [200, 100, 50, 255]);
    let (w, h, px) = r.get_pixels();
    assert_eq!((w, h), (2, 2));
    assert_eq!(&px[0..4], &[200, 100, 50, 255]);
    assert_eq!(&px[12..16], &[200, 100, 50, 255]);
}

#[test]
fn composite_half_coverage_blends_half() {
    let mut m = Mask::new(1, 1);
    m.pixels.copy_from_slice(&[128]);
    let mut r = Raster::new(1, 1);
    r.composite(&m, [255, 0, 0, 255]);
    let (_, _, px) = r.get_pixels();
    // (255 * 128 + 0 * 127 + 127) / 255 == 128
    assert_eq!(&px[0..4], &[128, 0, 0, 128]);
}

#[test]
fn composite_scales_by_color_alpha_too() {
    let m = full_mask(1, 1);
    let mut r = Raster::new(1, 1);
    r.composite(&m, [255, 255, 255, 128]);
    let (_, _, px) = r.get_pixels();
    assert_eq!(&px[0..4], &[128, 128, 128, 128]);
}

#[test]
fn composite_zero_coverage_then_cut_restores_pixels() {
    let base = full_mask(2, 2);
    let mut r = Raster::new(2, 2);
    r.composite(&base, [10, 20, 30, 255]);
    let before = r.get_pixels().2.clone();
    let empty = Mask::new(2, 2);
    r.composite(&empty, [250, 250, 250, 255]);
    r.cut(&empty);
    assert_eq!(r.get_pixels().2, &before);
}

#[test]
fn cut_subtracts_alpha_and_keeps_color() {
    let m = full_mask(1, 1);
    let mut r = Raster::new(1, 1);
    r.composite(&m, [60, 70, 80, 255]);
    r.cut(&m);
    let (_, _, px) = r.get_pixels();
    assert_eq!(&px[0..4], &[60, 70, 80, 0]);
}

#[test]
fn cut_saturates_at_zero_alpha() {
    let m = full_mask(1, 1);
    let mut r = Raster::new(1, 1);
    r.cut(&m);
    let (_, _, px) = r.get_pixels();
    assert_eq!(&px[0..4], &[0, 0, 0, 0]);
}

#[test]
fn raster_clear_zeroes_everything() {
    let m = full_mask(2, 2);
    let mut r = Raster::new(2, 2);
    r.composite(&m, [255, 255, 255, 255]);
    r.clear();
    assert!(r.get_pixels().2.iter().all(|&b| b == 0));
}

#[test]
fn mask_coverage_stays_in_byte_range() {
    let m = full_mask(3, 3);
    for &b in m.pixels.iter() {
        let v = b as u32;
        assert!(v <= 255);
    }
}
