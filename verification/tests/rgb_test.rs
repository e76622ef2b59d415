use imgquant::color::add_colors;
use imgquant::color::div_colors;
use imgquant::color::mul_colors;
use imgquant::color::sub_colors;
use imgquant::ErrRgb;

#[test]
fn test_add() {
    let rgb = ErrRgb::from_array([100; 3]).add_scalar(50);
    let mut r = ErrRgb::from_array([100; 3]);
    add_colors(&mut r, &ErrRgb::from_array([50; 3]));
    assert_eq!(r, rgb);
}

#[test]
fn test_sub() {
    let rgb = ErrRgb::from_array([100; 3]).sub_scalar(50);
    let s = sub_colors(&ErrRgb::from_array([100; 3]), &ErrRgb::from_array([50; 3]));
    assert_eq!(s, rgb);
}

#[test]
fn test_mul() {
    let rgb = ErrRgb::from_array([100; 3]).mul_scalar(5);
    let s = mul_colors(&ErrRgb::from_array([100; 3]), &ErrRgb::from_array([5; 3]));
    assert_eq!(s, rgb);
}

#[test]
fn test_div() {
    let rgb = ErrRgb::from_array([100; 3]).div_scalar(5);
    let s = div_colors(&ErrRgb::from_array([100; 3]), &ErrRgb::from_array([5; 3]));
    assert_eq!(s, rgb);
}

#[test]
fn test_clamp() {
    let mut rgb = ErrRgb::from_array([100; 3]);
    rgb.clamp(1, 5);
    assert_eq!(rgb, ErrRgb::from_array([5; 3]));
}

#[test]
fn test_div_truncates_toward_zero() {
    let q = ErrRgb::from_array([-7, 7, -8]).div_scalar(2);
    assert_eq!(q, ErrRgb::from_array([-3, 3, -4]));
}

#[test]
fn test_color_diff_weighting() {
    let a = imgquant::IRgb::from_array([10, 0, 0]);
    let b = imgquant::IRgb::from_array([0, 10, 0]);
    let c = imgquant::IRgb::from_array([0, 0, 10]);
    let o = imgquant::IRgb::from_array([0, 0, 0]);
    assert_eq!(a.color_diff(o), 300);
    assert_eq!(b.color_diff(o), 600);
    assert_eq!(c.color_diff(o), 100);
    assert_eq!(a.color_diff(b), 900);
}

#[test]
fn test_conversions_round_trip() {
    let c = imgquant::IRgb::from_array([3, 200, 255]);
    let wide = ErrRgb::from_irgb(c);
    assert_eq!(wide, ErrRgb::from_array([3, 200, 255]));
    assert_eq!(wide.to_irgb(), c);
    assert_eq!(c.get_inner(), [3, 200, 255]);
}
