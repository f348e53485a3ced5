//! A procedural test pattern: red grows from left to right, green from top
//! to bottom, and blue is held at a quarter of full scale.

use crate::image::{lemma_put_keeps_others, lemma_put_then_read, Image, Rgb};
use crate::single::{
    floor_byte,
    lemma_floor_of_zero,
    lemma_nearest_of_equal,
    lemma_nearest_of_multiple,
    lemma_nearest_of_zero,
    lemma_nearest_significand,
    nearest,
    nearest_to,
    rounded,
    Dyadic,
    Single,
};
use vstd::arithmetic::power2::lemma2_to64;
use vstd::prelude::*;

verus! {

/// The byte for an intensity of `num / den` of full scale: 255 times the
/// intensity, rounded down, of which the low eight bits are kept. There is
/// no clamping: an intensity above full scale wraps.
pub open spec fn level(num: nat, den: nat) -> nat
    recommends
        den > 0,
{
    ((255 * num) / den) % 256
}

/// The intensity byte at step `i` of a ramp over `n` pixels, which runs
/// from nothing at step 0 to full scale at step `n - 1`. The intensity is
/// the quotient of `i` by `n - 1`, and it is scaled by 255, in single
/// precision: both numbers, their quotient and its product with 255 are each
/// rounded. The byte is the floor of the result, of which the low eight
/// bits are kept. A ramp of a single pixel has no span to divide by; its
/// one byte is 0.
pub open spec fn ramp(i: nat, n: nat) -> nat {
    if n <= 1 {
        0
    } else {
        rounded(i).over(rounded((n - 1) as nat)).times(255).floor() % 256
    }
}

/// The colour of pixel `(x, y)` in the gradient of the given size.
pub open spec fn shade(width: nat, height: nat, x: nat, y: nat) -> Rgb {
    Rgb { r: ramp(x, width) as u8, g: ramp(y, height) as u8, b: level(1, 4) as u8 }
}

/// A ramp of more than one pixel starts at nothing and ends at full scale.
pub proof fn lemma_ramp_ends(n: nat)
    requires
        n > 1,
    ensures
        ramp(0, n) == 0,
        ramp((n - 1) as nat, n) == 255,
{
    let span = rounded((n - 1) as nat);
    lemma_nearest_significand((n - 1) as nat, 1);
    lemma_nearest_of_zero(1);
    lemma_nearest_of_zero(span.m);
    lemma_floor_of_zero(-span.e);
    assert(rounded(0).over(span).times(255) == (Dyadic { m: 0, e: -span.e }));

    lemma_nearest_of_equal(span.m);
    let one = span.over(span);
    assert(one == (Dyadic { m: 0x80_0000, e: -23 }));
    assert(nearest(255 * 0x80_0000, 1) == (Dyadic { m: 0xFF_0000, e: 7 })) by {
        reveal_with_fuel(nearest, 9);
    }
    assert(one.times(255) == (Dyadic { m: 0xFF_0000, e: -16 }));
    assert((Dyadic { m: 0xFF_0000, e: -16 }).floor() == 255) by {
        reveal_with_fuel(Dyadic::floor, 18);
    }
}

/// A quarter of full scale is byte 63, in exact arithmetic and in single
/// precision alike.
pub proof fn lemma_quarter_is_63()
    ensures
        level(1, 4) == 63,
        rounded(1).over(rounded(4)).times(255).floor() % 256 == 63,
{
    lemma2_to64();
    lemma_nearest_of_multiple(1, 1, 0);
    lemma_nearest_of_multiple(4, 1, 2);
    lemma_nearest_of_equal(0x80_0000);
    let quarter = rounded(1).over(rounded(4));
    assert(quarter == (Dyadic { m: 0x80_0000, e: -25 }));
    assert(nearest(255 * 0x80_0000, 1) == (Dyadic { m: 0xFF_0000, e: 7 })) by {
        reveal_with_fuel(nearest, 9);
    }
    assert(quarter.times(255) == (Dyadic { m: 0xFF_0000, e: -18 }));
    assert((Dyadic { m: 0xFF_0000, e: -18 }).floor() == 63) by {
        reveal_with_fuel(Dyadic::floor, 20);
    }
}

/// Computes `level(num, den)`.
pub fn level_byte(num: usize, den: usize) -> (b: u8)
    requires
        den > 0,
    ensures
        b == level(num as nat, den as nat),
{
    let scaled: u128 = 255u128 * (num as u128);
    let q: u128 = scaled / (den as u128);
    (q % 256) as u8
}

/// Computes `ramp(i, n)`.
pub fn ramp_byte(i: usize, n: usize) -> (b: u8)
    ensures
        b == ramp(i as nat, n as nat),
{
    if n <= 1 {
        return 0;
    }
    let step: Single = nearest_to(i as u64, 1);
    let span: Single = nearest_to((n - 1) as u64, 1);
    let part: Single = nearest_to(step.sig as u64, span.sig as u64);
    let full: Single = nearest_to(255 * (part.sig as u64), 1);
    let exp: i32 = full.exp + part.exp + step.exp - span.exp;
    floor_byte(full.sig, exp)
}

impl Image {
    /// The gradient image of the given size: pixel `(x, y)` holds
    /// `shade(width, height, x, y)`. Red is 0 in the first column and grows
    /// to the right, green is 0 in the first row and grows downwards, each
    /// up to 255 where there is more than one column or row, and blue is 63
    /// everywhere.
    pub fn gradiant(width: usize, height: usize) -> (img: Image)
        requires
            3 * width * height <= usize::MAX,
        ensures
            img@.wf(),
            img@.width == width,
            img@.height == height,
            forall|x: nat, y: nat|
                x < width && y < height ==> #[trigger] img@.pixel(x, y) == shade(
                    width as nat,
                    height as nat,
                    x,
                    y,
                ),
    {
        let mut img = Image::from(width, height);
        let mut y: usize = 0;
        while y < height
            invariant
                y <= height,
                img@.wf(),
                img@.width == width,
                img@.height == height,
                forall|px: nat, py: nat|
                    px < width && py < y ==> #[trigger] img@.pixel(px, py) == shade(
                        width as nat,
                        height as nat,
                        px,
                        py,
                    ),
            decreases height - y,
        {
            let mut x: usize = 0;
            while x < width
                invariant
                    x <= width,
                    y < height,
                    img@.wf(),
                    img@.width == width,
                    img@.height == height,
                    forall|px: nat, py: nat|
                        px < width && (py < y || (py == y && px < x)) ==> #[trigger] img@.pixel(
                            px,
                            py,
                        ) == shade(width as nat, height as nat, px, py),
                decreases width - x,
            {
                let r: u8 = ramp_byte(x, width);
                let g: u8 = ramp_byte(y, height);
                let b: u8 = level_byte(1, 4);
                let clr = Rgb::new(r, g, b);
                let ghost before = img@;
                img.pixels(x, y, clr);
                proof {
                    assert forall|px: nat, py: nat|
                        px < width && (py < y || (py == y && px < x + 1)) implies #[trigger] img@.pixel(
                        px,
                        py,
                    ) == shade(width as nat, height as nat, px, py) by {
                        if px == x && py == y {
                            lemma_put_then_read(before, x as nat, y as nat, clr);
                        } else {
                            lemma_put_keeps_others(before, x as nat, y as nat, clr, px, py);
                        }
                    }
                }
                x += 1;
            }
            y += 1;
        }
        img
    }
}

} // verus!
