use imgquant::dither::apply_error_with_dither;
use imgquant::dither::diffuse_error;
use imgquant::dither::nearest_color_from_palette;
use imgquant::DitherEngine;
use imgquant::DitherMode;
use imgquant::ErrRgb;
use imgquant::IRgb;
use imgquant::LeafOctree;

fn rgb(r: u8, g: u8, b: u8) -> IRgb {
    IRgb::from_array([r, g, b])
}

fn err(r: i16, g: i16, b: i16) -> ErrRgb {
    ErrRgb::from_array([r, g, b])
}

#[test]
fn test_apply_error_clamps() {
    assert_eq!(apply_error_with_dither(err(10, -10, 0), rgb(100, 5, 200)), rgb(110, 0, 200));
    assert_eq!(apply_error_with_dither(err(200, -300, 56), rgb(100, 100, 200)), rgb(255, 0, 255));
}

#[test]
fn test_nearest_color_prefers_smallest_diff() {
    let palette = vec![rgb(0, 0, 0), rgb(100, 100, 100), rgb(200, 200, 200)];
    assert_eq!(nearest_color_from_palette(&palette, rgb(90, 90, 90), 10), 1);
    assert_eq!(nearest_color_from_palette(&palette, rgb(220, 220, 220), 10), 2);
    assert_eq!(nearest_color_from_palette(&palette, rgb(10, 10, 10), 10), 0);
}

#[test]
fn test_nearest_color_early_exit_takes_first_close_entry() {
    // (1,0,0) is distance 3 from black: below the threshold of 10, so the
    // scan stops there and never reaches the exact match later on.
    let palette = vec![rgb(0, 0, 0), rgb(1, 0, 0)];
    assert_eq!(nearest_color_from_palette(&palette, rgb(1, 0, 0), 10), 0);
    // With no threshold the exact match wins.
    assert_eq!(nearest_color_from_palette(&palette, rgb(1, 0, 0), 0), 1);
}

#[test]
fn test_floyd_steinberg_shares() {
    // A 2x2 buffer; pixel (0,0) diffuses residual (16, -16, 8): right gets
    // 7/16, below 5/16, below-right 1/16, below-left is off the image.
    let mut buf = vec![err(0, 0, 0); 4];
    diffuse_error(&mut buf, DitherMode::FloydSteinberg, 2, 2, 0, 0, err(16, -16, 8));
    assert_eq!(buf[0], err(0, 0, 0));
    assert_eq!(buf[1], err(7, -7, 3));
    assert_eq!(buf[2], err(5, -5, 2));
    assert_eq!(buf[3], err(1, -1, 0));
}

#[test]
fn test_sierra_lite_shares() {
    // Pixel (1,0) of a 3x2 image: right 2/4, below-left 1/4, below 1/4.
    let mut buf = vec![err(0, 0, 0); 6];
    diffuse_error(&mut buf, DitherMode::SierraLite, 3, 2, 1, 0, err(16, -16, 8));
    assert_eq!(buf[0], err(0, 0, 0));
    assert_eq!(buf[1], err(0, 0, 0));
    assert_eq!(buf[2], err(8, -8, 4));
    assert_eq!(buf[3], err(4, -4, 2));
    assert_eq!(buf[4], err(4, -4, 2));
    assert_eq!(buf[5], err(0, 0, 0));
}

#[test]
fn test_diffusion_drops_out_of_bounds_targets() {
    // The bottom-right pixel has no in-bounds target: nothing may change
    // but its own slot, and nothing past the end of the buffer is touched.
    let mut buf = vec![err(9, 9, 9); 4];
    diffuse_error(&mut buf, DitherMode::FloydSteinberg, 2, 2, 1, 1, err(255, 255, 255));
    assert_eq!(buf.len(), 4);
    assert_eq!(buf[0], err(9, 9, 9));
    assert_eq!(buf[1], err(9, 9, 9));
    assert_eq!(buf[2], err(9, 9, 9));
    assert_eq!(buf[3], err(0, 0, 0));
}

#[test]
fn test_diffusion_injects_no_more_than_residual() {
    // The truncated shares of residual 15 add up to at most 15 and keep
    // its sign: 6 + 2 + 4 + 0 = 12.
    let mut buf = vec![err(0, 0, 0); 6];
    diffuse_error(&mut buf, DitherMode::FloydSteinberg, 3, 2, 1, 0, err(15, 15, 15));
    assert_eq!(buf[2], err(6, 6, 6));
    assert_eq!(buf[3], err(2, 2, 2));
    assert_eq!(buf[4], err(4, 4, 4));
    assert_eq!(buf[5], err(0, 0, 0));
    let injected: i16 = buf.iter().map(|e| e.r).sum();
    assert!(injected >= 0 && injected <= 15);
    let mut neg = vec![err(0, 0, 0); 6];
    diffuse_error(&mut neg, DitherMode::FloydSteinberg, 3, 2, 1, 0, err(-15, -15, -15));
    let injected_neg: i16 = neg.iter().map(|e| e.r).sum();
    assert!(injected_neg <= 0 && injected_neg >= -15);
}

fn black_white_tree() -> (LeafOctree, Vec<IRgb>) {
    let mut tree = LeafOctree::new(8);
    tree.add_color(rgb(0, 0, 0));
    tree.add_color(rgb(255, 255, 255));
    tree.add_color(rgb(0, 0, 0));
    tree.add_color(rgb(255, 255, 255));
    let palette = tree.make_palette(2);
    (tree, palette)
}

#[test]
fn test_checkerboard_base_mode_round_trips() {
    // A 2x2 black/white checkerboard at depth 8 with two palette entries
    // must come back unchanged in base mode.
    let (tree, palette) = black_white_tree();
    assert_eq!(palette, vec![rgb(0, 0, 0), rgb(255, 255, 255)]);
    let source = vec![rgb(0, 0, 0), rgb(255, 255, 255), rgb(0, 0, 0), rgb(255, 255, 255)];
    let engine = DitherEngine::new(DitherMode::Base);
    let out = engine.run(&tree, &palette, &source, 2, 2);
    assert_eq!(out, source);
}

#[test]
fn test_checkerboard_dithered_round_trips() {
    // Every source color sits exactly on a palette entry, so the residual is
    // zero everywhere and dithering changes nothing.
    let (tree, palette) = black_white_tree();
    let source = vec![rgb(0, 0, 0), rgb(255, 255, 255), rgb(0, 0, 0), rgb(255, 255, 255)];
    for mode in [DitherMode::FloydSteinberg, DitherMode::SierraLite] {
        let engine = DitherEngine::new(mode);
        let out = engine.run(&tree, &palette, &source, 2, 2);
        assert_eq!(out, source);
    }
}

#[test]
fn test_dither_carries_error_rightward() {
    // Palette of (10,10,10) and (200,200,200) at depth 3. On a 1x2 image of
    // (50,50,50) and (100,100,100): the first pixel maps to (10,10,10) and
    // sends 7/16 of its residual 40 — that is 17 — to the right, so the
    // second pixel is corrected to 117, which still maps to (10,10,10).
    let mut tree = LeafOctree::new(3);
    tree.add_color(rgb(10, 10, 10));
    tree.add_color(rgb(200, 200, 200));
    let palette = tree.make_palette(2);
    assert_eq!(palette, vec![rgb(10, 10, 10), rgb(200, 200, 200)]);
    let source = vec![rgb(50, 50, 50), rgb(100, 100, 100)];
    let engine = DitherEngine::new(DitherMode::FloydSteinberg);
    let out = engine.run(&tree, &palette, &source, 2, 1);
    assert_eq!(out, vec![rgb(10, 10, 10), rgb(10, 10, 10)]);
}

#[test]
fn test_single_color_image_maps_every_pixel_to_index_zero() {
    let mut tree = LeafOctree::new(6);
    let color = rgb(77, 88, 99);
    let n = 6usize;
    for _ in 0..n {
        tree.add_color(color);
    }
    let palette = tree.make_palette(1);
    assert_eq!(palette, vec![color]);
    let source = vec![color; n];
    let engine = DitherEngine::new(DitherMode::Base);
    let out = engine.run(&tree, &palette, &source, 3, 2);
    assert_eq!(out, vec![color; n]);
}

#[test]
fn test_out_of_range_palette_index_clamps_to_last_entry() {
    // Three occupied octants, two palette entries: the leaf indexed past the
    // palette renders as the last palette entry instead of panicking.
    let mut tree = LeafOctree::new(3);
    let a = rgb(0, 0, 0);
    let b = rgb(255, 0, 0);
    let c = rgb(0, 0, 255);
    tree.add_color(a);
    tree.add_color(b);
    tree.add_color(c);
    let palette = tree.make_palette(2);
    assert_eq!(palette, vec![a, c]);
    let engine = DitherEngine::new(DitherMode::Base);
    let out = engine.run(&tree, &palette, &vec![a, b, c], 3, 1);
    assert_eq!(out, vec![a, c, c]);
}

#[test]
fn test_residual_variant_runs() {
    let (tree, palette) = black_white_tree();
    let source = vec![rgb(30, 30, 30), rgb(240, 240, 240)];
    let mut engine = DitherEngine::new(DitherMode::SierraLite);
    engine.residual_from_corrected = true;
    let out = engine.run(&tree, &palette, &source, 2, 1);
    assert_eq!(out, vec![rgb(0, 0, 0), rgb(255, 255, 255)]);
}
