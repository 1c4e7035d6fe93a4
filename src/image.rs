//! Tone mapping, 8-bit quantization and the binary PPM (P6) byte stream.
use crate::fixed::{max_spec, min_spec, quot, quot_wide, ONE};
use crate::geometry::Vec3f;
use vstd::prelude::*;

verus! {

/// Brightest channel of a colour.
pub open spec fn max_channel(c: Vec3f) -> int {
    max_spec(c.0 as int, max_spec(c.1 as int, c.2 as int))
}

/// A colour whose brightest channel exceeds one is scaled down uniformly so
/// that channel becomes one; other colours are kept.
pub open spec fn tone_spec(c: Vec3f) -> (int, int, int) {
    let m = max_channel(c);
    if m > ONE {
        (quot(c.0 * ONE, m), quot(c.1 * ONE, m), quot(c.2 * ONE, m))
    } else {
        (c.0 as int, c.1 as int, c.2 as int)
    }
}

/// A channel clamped to `[0, 1]` and scaled to `0..=255`, rounded to nearest.
pub open spec fn channel_byte(c: int) -> int {
    let cl = min_spec(ONE as int, max_spec(0, c));
    (255 * cl + ONE / 2) / (ONE as int)
}

/// The three bytes, red, green, blue, that encode one pixel.
pub open spec fn pixel_bytes(c: Vec3f) -> Seq<u8> {
    let t = tone_spec(c);
    seq![channel_byte(t.0) as u8, channel_byte(t.1) as u8, channel_byte(t.2) as u8]
}

/// The bytes of all pixels in order.
pub open spec fn pixels_bytes(s: Seq<Vec3f>) -> Seq<u8>
    decreases s.len(),
{
    if s.len() == 0 {
        Seq::empty()
    } else {
        pixels_bytes(s.drop_last()) + pixel_bytes(s.last())
    }
}

/// The ASCII decimal digits of `n`, most significant first.
pub open spec fn decimal(n: nat) -> Seq<u8>
    decreases n,
{
    if n < 10 {
        seq![(48 + n) as u8]
    } else {
        decimal(n / 10) + seq![(48 + n % 10) as u8]
    }
}

/// `P6`, the width and height in decimal, and the largest channel value 255,
/// each followed by white space.
pub open spec fn ppm_header(width: nat, height: nat) -> Seq<u8> {
    seq![80u8, 54u8, 10u8] + decimal(width) + seq![32u8] + decimal(height) + seq![
        10u8,
        50u8,
        53u8,
        53u8,
        10u8,
    ]
}

/// The whole file for a `width x height` framebuffer.
pub open spec fn ppm_spec(width: nat, height: nat, fb: Seq<Vec3f>) -> Seq<u8> {
    ppm_header(width, height) + pixels_bytes(fb)
}

/// `x / m` for a divisor `m` above one.
fn scale_down(x: i64, m: i64) -> (r: i64)
    requires
        m > ONE,
    ensures
        r == quot(x * ONE, m as int),
{
    let ghost mx = if x < 0 { -(x as int) } else { x as int };
    assert(-(0x8000_0000_0000_0000 * 65536) <= x * 65536 <= 0x8000_0000_0000_0000 * 65536) by (nonlinear_arith)
        requires
            -0x8000_0000_0000_0000 <= x < 0x8000_0000_0000_0000,
    ;
    proof {
        assert(mx * ONE >= 0) by (nonlinear_arith)
            requires
                mx >= 0,
        ;
        vstd::arithmetic::div_mod::lemma_div_is_ordered_by_denominator(mx * ONE, ONE as int, m as int);
        vstd::arithmetic::div_mod::lemma_div_multiples_vanish(mx, ONE as int);
        assert(mx * ONE == ONE * mx) by (nonlinear_arith);
        assert(crate::fixed::mag(x * ONE) == mx * ONE) by (nonlinear_arith)
            requires
                mx == crate::fixed::mag(x as int),
        ;
    }
    let q = quot_wide(x as i128 * ONE as i128, m as i128);
    q as i64
}

/// Scales a colour down uniformly where a channel exceeds one.
pub fn tone_map(c: Vec3f) -> (r: (i64, i64, i64))
    ensures
        (r.0 as int, r.1 as int, r.2 as int) == tone_spec(c),
{
    let m = if c.0 >= c.1 && c.0 >= c.2 {
        c.0
    } else if c.1 >= c.2 {
        c.1
    } else {
        c.2
    };
    if m > ONE {
        (scale_down(c.0, m), scale_down(c.1, m), scale_down(c.2, m))
    } else {
        (c.0, c.1, c.2)
    }
}

/// One channel as a byte: clamped to `[0, 1]`, times 255, rounded.
pub fn quantize(c: i64) -> (r: u8)
    ensures
        r as int == channel_byte(c as int),
{
    let cl: i64 = if c < 0 {
        0
    } else if c > ONE {
        ONE
    } else {
        c
    };
    let v = (255 * cl + ONE / 2) / ONE;
    assert(v <= 255) by {
        vstd::arithmetic::div_mod::lemma_div_is_ordered(255 * cl + ONE / 2, 255 * ONE + ONE / 2, ONE as int);
    }
    v as u8
}

/// Appends the decimal digits of `n`.
pub fn push_decimal(out: &mut Vec<u8>, n: usize)
    ensures
        final(out)@ == old(out)@ + decimal(n as nat),
    decreases n,
{
    if n >= 10 {
        push_decimal(out, n / 10);
    }
    out.push((48 + n % 10) as u8);
    proof {
        if n >= 10 {
            assert(final(out)@ =~= old(out)@ + decimal(n as nat));
        } else {
            assert(final(out)@ =~= old(out)@ + decimal(n as nat));
        }
    }
}

/// Encodes a framebuffer, stored row by row from the top, as a binary PPM
/// file: the header, then three bytes per pixel.
pub fn encode_ppm(width: usize, height: usize, fb: &[Vec3f]) -> (r: Vec<u8>)
    requires
        fb@.len() == width * height,
    ensures
        r@ == ppm_spec(width as nat, height as nat, fb@),
{
    let mut out: Vec<u8> = Vec::new();
    out.push(80);
    out.push(54);
    out.push(10);
    push_decimal(&mut out, width);
    out.push(32);
    push_decimal(&mut out, height);
    out.push(10);
    out.push(50);
    out.push(53);
    out.push(53);
    out.push(10);
    assert(out@ =~= ppm_header(width as nat, height as nat));
    let mut i: usize = 0;
    while i < fb.len()
        invariant
            i <= fb@.len(),
            out@ == ppm_header(width as nat, height as nat) + pixels_bytes(fb@.take(i as int)),
        decreases fb@.len() - i,
    {
        let (r, g, b) = tone_map(fb[i]);
        out.push(quantize(r));
        out.push(quantize(g));
        out.push(quantize(b));
        proof {
            let next = fb@.take(i + 1);
            assert(next.drop_last() =~= fb@.take(i as int));
            assert(next.last() == fb@[i as int]);
            assert(out@ =~= ppm_header(width as nat, height as nat) + pixels_bytes(next));
        }
        i = i + 1;
    }
    assert(fb@.take(fb@.len() as int) =~= fb@);
    out
}

} // verus!
