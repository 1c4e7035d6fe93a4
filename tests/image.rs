use raytracer::fixed::ONE;
use raytracer::geometry::Vec3f;
use raytracer::image::{encode_ppm, push_decimal, quantize, tone_map};

#[test]
fn quantize_clamps_and_rounds() {
    assert_eq!(quantize(0), 0);
    assert_eq!(quantize(-5), 0);
    assert_eq!(quantize(ONE), 255);
    assert_eq!(quantize(2 * ONE), 255);
    assert_eq!(quantize(ONE / 2), 128);
    assert_eq!(quantize(ONE / 4), 64);
}

#[test]
fn tone_map_rescales_bright_colors() {
    assert_eq!(tone_map(Vec3f(2 * ONE, ONE, 0)), (ONE, ONE / 2, 0));
    assert_eq!(tone_map(Vec3f(ONE / 2, ONE, -ONE)), (ONE / 2, ONE, -ONE));
}

#[test]
fn decimal_digits() {
    let mut out: Vec<u8> = vec![b'x'];
    push_decimal(&mut out, 0);
    push_decimal(&mut out, 1024);
    assert_eq!(out, b"x01024".to_vec());
}

#[test]
fn ppm_header_and_pixels() {
    let fb = [Vec3f(2 * ONE, ONE, 0), Vec3f(ONE / 4, -ONE, ONE)];
    let bytes = encode_ppm(2, 1, &fb);
    let mut expected = b"P6\n2 1\n255\n".to_vec();
    expected.extend_from_slice(&[255, 128, 0, 64, 0, 255]);
    assert_eq!(bytes, expected);
}

#[test]
fn ppm_of_empty_image() {
    assert_eq!(encode_ppm(0, 5, &[]), b"P6\n0 5\n255\n".to_vec());
}
