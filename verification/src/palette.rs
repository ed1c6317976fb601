//! Colors that suit a set of screenshots.
//!
//! The work is done in Oklab, where lightness and hue can be turned apart from
//! each other. The steps that raise to a power, take a cube root or turn an
//! angle are the caller's; what goes into them and what is made of their
//! results is decided here.
use crate::arith_laws::{
    lemma_fraction, lemma_int_double_exact, lemma_quot_monotone, lemma_quot_sign, lemma_round_bounded,
    lemma_round_units_monotone, lemma_sum_sign,
};
use crate::double::{diff, lemma_mag_ordered, one_unit, opposite, prod, quot, sum, Double, UNIT_EXP};
use crate::model::geometry::pi;
use crate::model::{ColorStrategy, Rgba};
use crate::order::{le, lt, magnitude, within};
use crate::rng::{in_range, output, stepped, Rng};
use crate::root::remainder;
use crate::whole::{clip, int_double, ratio, whole, Rounding};
use vstd::arithmetic::div_mod::*;
use vstd::arithmetic::mul::*;
use vstd::prelude::*;

verus! {

/// A decoded image: rows of `width` pixels of four bytes each (blue, green,
/// red, alpha), the colors multiplied by the alpha.
pub struct PixelSample<'a> {
    pub bytes: &'a [u8],
    pub width: i32,
    pub height: i32,
}

/// In each direction, every so-manieth pixel is looked at.
pub const SAMPLE_STRIDE: usize = 7;

/// The bytes of one pixel.
#[derive(Clone, Copy, Debug, PartialEq, Eq, Structural)]
pub struct Pixel {
    pub b: u8,
    pub g: u8,
    pub r: u8,
    pub a: u8,
}

/// The pixel at a place of an image.
pub open spec fn pixel_at(bytes: Seq<u8>, width: int, x: int, y: int) -> Pixel {
    let i = y * (4 * width) + 4 * x;
    Pixel { b: bytes[i], g: bytes[i + 1], r: bytes[i + 2], a: bytes[i + 3] }
}

/// The pixels that are not transparent among the first `n` that are looked at
/// in a row.
pub open spec fn row_samples(bytes: Seq<u8>, width: int, y: int, n: nat) -> Seq<Pixel>
    decreases n,
{
    if n == 0 {
        Seq::empty()
    } else {
        let before = row_samples(bytes, width, y, (n - 1) as nat);
        let p = pixel_at(bytes, width, SAMPLE_STRIDE * (n - 1), y);
        if p.a > 0 {
            before.push(p)
        } else {
            before
        }
    }
}

/// How many of `n` things are looked at.
pub open spec fn strided(n: int) -> nat {
    ((n + SAMPLE_STRIDE - 1) / SAMPLE_STRIDE as int) as nat
}

/// The samples of the first `n` rows that are looked at.
pub open spec fn rows_samples(bytes: Seq<u8>, width: int, n: nat) -> Seq<Pixel>
    decreases n,
{
    if n == 0 {
        Seq::empty()
    } else {
        rows_samples(bytes, width, (n - 1) as nat) + row_samples(
            bytes,
            width,
            SAMPLE_STRIDE * (n - 1),
            strided(width),
        )
    }
}

/// The number of rows that an image's bytes hold, up to its height.
pub open spec fn held_rows(len: int, width: int, height: int) -> int {
    let held = len / (4 * width);
    if held < height {
        held
    } else {
        height
    }
}

/// The samples of one image. Rows that its bytes do not reach are left out.
pub open spec fn image_samples(bytes: Seq<u8>, width: int, height: int) -> Seq<Pixel> {
    if width <= 0 || height <= 0 {
        Seq::empty()
    } else {
        rows_samples(bytes, width, strided(held_rows(bytes.len() as int, width, height)))
    }
}

/// The samples of all images, one after the other.
pub open spec fn all_samples(images: Seq<PixelSample>) -> Seq<Pixel>
    decreases images.len(),
{
    if images.len() == 0 {
        Seq::empty()
    } else {
        let last = images.last();
        all_samples(images.drop_last()) + image_samples(last.bytes@, last.width as int, last.height as int)
    }
}

fn sample_row(bytes: &[u8], width: usize, y: usize, out: &mut Vec<Pixel>)
    requires
        0 < width <= i32::MAX,
        (y + 1) * (4 * width) <= bytes.len(),
    ensures
        final(out)@ == old(out)@ + row_samples(bytes@, width as int, y as int, strided(width as int)),
{
    let ghost before = out@;
    let ghost w = width as int;
    let ghost start = y * (4 * width);
    proof {
        assert((y + 1) * (4 * width) == start + 4 * width && start >= 0) by (nonlinear_arith)
            requires
                start == y * (4 * width),
                width > 0,
                y >= 0,
        ;
    }
    let row: usize = y * (4 * width);
    let mut x: usize = 0;
    let ghost mut n: nat = 0;
    proof {
        assert(before + row_samples(bytes@, w, y as int, 0) =~= before);
    }
    while x < width
        invariant
            0 < width <= i32::MAX,
            w == width,
            row == y * (4 * width),
            row + 4 * width <= bytes.len(),
            x == SAMPLE_STRIDE * n,
            n <= strided(w),
            out@ == before + row_samples(bytes@, w, y as int, n),
        decreases width + 7 - x,
    {
        let i: usize = row + 4 * x;
        let p = Pixel { b: bytes[i], g: bytes[i + 1], r: bytes[i + 2], a: bytes[i + 3] };
        if p.a > 0 {
            out.push(p);
        }
        proof {
            n = n + 1;
            let rest = row_samples(bytes@, w, y as int, (n - 1) as nat);
            assert(p == pixel_at(bytes@, w, SAMPLE_STRIDE * (n - 1), y as int));
            assert((before + rest).push(p) =~= before + rest.push(p));
        }
        x = x + SAMPLE_STRIDE;
    }
}

fn sample_image(image: &PixelSample, out: &mut Vec<Pixel>)
    ensures
        final(out)@ == old(out)@ + image_samples(image.bytes@, image.width as int, image.height as int),
{
    let ghost before = out@;
    if image.width <= 0 || image.height <= 0 {
        proof {
            assert(before + Seq::<Pixel>::empty() =~= before);
        }
        return;
    }
    let ghost (w, h, len) = (image.width as int, image.height as int, image.bytes.len() as int);
    let stride: u64 = 4 * (image.width as u64);
    let held: u64 = image.bytes.len() as u64 / stride;
    let rows: usize = if held < image.height as u64 {
        held as usize
    } else {
        image.height as usize
    };
    let mut y: usize = 0;
    let ghost mut n: nat = 0;
    proof {
        assert(rows == held_rows(len, w, h));
        assert(before + rows_samples(image.bytes@, w, 0) =~= before);
    }
    while y < rows
        invariant
            w == image.width,
            w > 0,
            len == image.bytes.len(),
            rows == held_rows(len, w, h),
            rows <= i32::MAX,
            y == SAMPLE_STRIDE * n,
            n <= strided(rows as int),
            out@ == before + rows_samples(image.bytes@, w, n),
        decreases rows + 7 - y,
    {
        proof {
            let s = 4 * w;
            lemma_fundamental_div_mod(len, s);
            lemma_mod_bound(len, s);
            assert((y + 1) * s <= len) by (nonlinear_arith)
                requires
                    y + 1 <= len / s,
                    len == s * (len / s) + len % s,
                    0 <= len % s,
                    s > 0,
            ;
        }
        let ghost sofar = rows_samples(image.bytes@, w, n);
        sample_row(image.bytes, image.width as usize, y, out);
        proof {
            n = n + 1;
            let row = row_samples(image.bytes@, w, y as int, strided(w));
            assert((before + sofar) + row =~= before + (sofar + row));
        }
        y = y + SAMPLE_STRIDE;
    }
}

/// The pixels that are looked at, without the transparent ones.
pub fn sample_pixels(images: &[PixelSample]) -> (res: Vec<Pixel>)
    ensures
        res@ == all_samples(images@),
{
    let mut out: Vec<Pixel> = Vec::new();
    let mut i: usize = 0;
    proof {
        assert(out@ =~= all_samples(images@.take(0)));
    }
    while i < images.len()
        invariant
            i <= images.len(),
            out@ == all_samples(images@.take(i as int)),
        decreases images.len() - i,
    {
        proof {
            assert(images@.take(i + 1).drop_last() =~= images@.take(i as int));
            assert(images@.take(i + 1).last() == images@[i as int]);
        }
        sample_image(&images[i], &mut out);
        i = i + 1;
    }
    proof {
        assert(images@.take(i as int) =~= images@);
    }
    out
}

/// A weighted sum of colors.
#[derive(Clone, Copy, Debug, PartialEq)]
pub struct ColorTotals {
    pub r: Double,
    pub g: Double,
    pub b: Double,
    pub weight: Double,
}

pub open spec fn no_totals() -> ColorTotals {
    ColorTotals { r: int_double(0), g: int_double(0), b: int_double(0), weight: int_double(0) }
}

/// A pixel's weight: its alpha as a share.
pub open spec fn pixel_weight(p: Pixel) -> Double {
    quot(int_double(p.a as int), int_double(255))
}

/// A channel of a pixel with the alpha taken out again.
pub open spec fn straight(channel: u8, p: Pixel) -> Double {
    quot(int_double(channel as int), int_double(p.a as int))
}

/// The weighted sum of the pixels' straight colors.
pub open spec fn pixel_totals(pixels: Seq<Pixel>) -> ColorTotals
    decreases pixels.len(),
{
    if pixels.len() == 0 {
        no_totals()
    } else {
        let t = pixel_totals(pixels.drop_last());
        let p = pixels.last();
        ColorTotals {
            r: sum(t.r, prod(straight(p.r, p), pixel_weight(p))),
            g: sum(t.g, prod(straight(p.g, p), pixel_weight(p))),
            b: sum(t.b, prod(straight(p.b, p), pixel_weight(p))),
            weight: sum(t.weight, pixel_weight(p)),
        }
    }
}

/// A share brought into the range from zero to one.
pub open spec fn share(v: Double) -> Double {
    within(v, int_double(0), int_double(1))
}

pub open spec fn neutral_gray() -> Rgba {
    Rgba { r: ratio(5, 10), g: ratio(5, 10), b: ratio(5, 10), a: int_double(1) }
}

/// The color that totals come to; a neutral gray without any weight.
pub open spec fn mean_color(t: ColorTotals) -> Rgba {
    if le(t.weight, int_double(0)) {
        neutral_gray()
    } else {
        Rgba {
            r: share(quot(t.r, t.weight)),
            g: share(quot(t.g, t.weight)),
            b: share(quot(t.b, t.weight)),
            a: int_double(1),
        }
    }
}

fn clamp_share(v: Double) -> (res: Double)
    ensures
        res == share(v),
{
    proof {
        lemma_zero_to_one();
    }
    v.clamp(Double::zero(), Double::one())
}

proof fn lemma_zero_to_one()
    ensures
        le(int_double(0), int_double(1)),
{
    lemma_int_double_exact(0);
    lemma_int_double_exact(1);
}

/// The average color of the images, weighted by alpha. Without any visible
/// pixel it is a neutral gray.
pub fn average_color(images: &[PixelSample]) -> (res: Rgba)
    ensures
        res == mean_color(pixel_totals(all_samples(images@))),
{
    let pixels = sample_pixels(images);
    let (mut r, mut g, mut b, mut weight) = (Double::zero(), Double::zero(), Double::zero(), Double::zero());
    let full = Double::from_int(255);
    let mut i: usize = 0;
    proof {
        assert(pixels@.take(0) =~= Seq::empty());
    }
    while i < pixels.len()
        invariant
            i <= pixels.len(),
            full == int_double(255),
            (ColorTotals { r, g, b, weight }) == pixel_totals(pixels@.take(i as int)),
        decreases pixels.len() - i,
    {
        let p = pixels[i];
        proof {
            assert(pixels@.take(i + 1).drop_last() =~= pixels@.take(i as int));
            assert(pixels@.take(i + 1).last() == p);
        }
        let a = Double::from_int(p.a as i64);
        let frac = a.over(full);
        b = b.plus(Double::from_int(p.b as i64).over(a).times(frac));
        g = g.plus(Double::from_int(p.g as i64).over(a).times(frac));
        r = r.plus(Double::from_int(p.r as i64).over(a).times(frac));
        weight = weight.plus(frac);
        i = i + 1;
    }
    proof {
        assert(pixels@.take(i as int) =~= pixels@);
    }
    if weight.at_most(Double::zero()) {
        let half = Double::ratio(5, 10);
        return Rgba::new(half, half, half, Double::one());
    }
    Rgba::new(clamp_share(r.over(weight)), clamp_share(g.over(weight)), clamp_share(b.over(weight)), Double::one())
}

/// Without any visible pixel the average is a neutral gray, not black.
pub proof fn law_no_visible_pixel_gives_gray(images: Seq<PixelSample>)
    requires
        all_samples(images).len() == 0,
    ensures
        mean_color(pixel_totals(all_samples(images))) == neutral_gray(),
{
    lemma_int_double_exact(0);
}

// ---------------------------------------------------------------------------
// Oklab
// ---------------------------------------------------------------------------

/// A color in Oklab.
#[derive(Clone, Copy, Debug, PartialEq)]
pub struct Oklab {
    pub l: Double,
    pub a: Double,
    pub b: Double,
}

/// A color in Oklab's polar form, the hue in radians.
#[derive(Clone, Copy, Debug, PartialEq)]
pub struct Oklch {
    pub lightness: Double,
    pub chroma: Double,
    pub hue: Double,
}

/// Three numbers that go through one step together.
#[derive(Clone, Copy, Debug, PartialEq)]
pub struct Triple {
    pub x: Double,
    pub y: Double,
    pub z: Double,
}

/// A coefficient in ten-billionths.
pub open spec fn coefficient(n: int) -> Double {
    ratio(n, 10000000000)
}

/// Three coefficients applied to three numbers, from the left; the second and
/// the third product are added or taken away.
pub open spec fn weighed_signed(p: int, q: int, minus_q: bool, r: int, minus_r: bool, v: Triple) -> Double {
    let first = prod(coefficient(p), v.x);
    let second = prod(coefficient(q), v.y);
    let third = prod(coefficient(r), v.z);
    let two = if minus_q {
        diff(first, second)
    } else {
        sum(first, second)
    };
    if minus_r {
        diff(two, third)
    } else {
        sum(two, third)
    }
}

fn factor(n: i64) -> (res: Double)
    ensures
        res == coefficient(n as int),
{
    Double::ratio(n, 10000000000)
}

fn weigh(p: i64, q: i64, minus_q: bool, r: i64, minus_r: bool, v: Triple) -> (res: Double)
    ensures
        res == weighed_signed(p as int, q as int, minus_q, r as int, minus_r, v),
{
    let first = factor(p).times(v.x);
    let second = factor(q).times(v.y);
    let third = factor(r).times(v.z);
    let two = if minus_q {
        first.minus(second)
    } else {
        first.plus(second)
    };
    if minus_r {
        two.minus(third)
    } else {
        two.plus(third)
    }
}

/// The base that a channel is raised from on its way to linear light.
pub open spec fn base_of_channel(c: Double) -> Double {
    quot(sum(c, ratio(55, 1000)), ratio(1055, 1000))
}

/// The base that a channel is raised from on its way to linear light; the
/// exponent is 2.4.
pub fn linear_base(c: Double) -> (res: Double)
    ensures
        res == base_of_channel(c),
{
    c.plus(Double::ratio(55, 1000)).over(Double::ratio(1055, 1000))
}

/// Whether a channel's linear light is proportional to it.
pub open spec fn is_dim(c: Double) -> bool {
    le(c, ratio(4045, 100000))
}

/// A channel's linear light, from the power of its base.
pub open spec fn light_of_channel(c: Double, raised: Double) -> Double {
    if is_dim(c) {
        quot(c, ratio(1292, 100))
    } else {
        raised
    }
}

/// A channel's linear light, from the power of its base.
pub fn srgb_to_linear(c: Double, raised: Double) -> (res: Double)
    ensures
        res == light_of_channel(c, raised),
{
    if c.at_most(Double::ratio(4045, 100000)) {
        c.over(Double::ratio(1292, 100))
    } else {
        raised
    }
}

/// Whether linear light's channel is proportional to it.
pub open spec fn is_faint(c: Double) -> bool {
    le(c, ratio(31308, 10000000))
}

/// The channel of linear light, from the light raised to 1 / 2.4.
pub open spec fn channel_of_light(c: Double, raised: Double) -> Double {
    if is_faint(c) {
        prod(c, ratio(1292, 100))
    } else {
        diff(prod(ratio(1055, 1000), raised), ratio(55, 1000))
    }
}

/// The channel of linear light, from the light raised to 1 / 2.4.
pub fn linear_to_srgb(c: Double, raised: Double) -> (res: Double)
    ensures
        res == channel_of_light(c, raised),
{
    if c.at_most(Double::ratio(31308, 10000000)) {
        c.times(Double::ratio(1292, 100))
    } else {
        Double::ratio(1055, 1000).times(raised).minus(Double::ratio(55, 1000))
    }
}

/// The cone responses to linear light.
pub open spec fn cones(light: Triple) -> Triple {
    Triple {
        x: weighed_signed(4122214708, 5363325363, false, 514459929, false, light),
        y: weighed_signed(2119034982, 6806995451, false, 1073969566, false, light),
        z: weighed_signed(883024619, 2817188376, false, 6299787005, false, light),
    }
}

/// The cone responses to linear light, whose cube roots Oklab is made of.
pub fn cone_responses(light: Triple) -> (res: Triple)
    ensures
        res == cones(light),
{
    Triple {
        x: weigh(4122214708, 5363325363, false, 514459929, false, light),
        y: weigh(2119034982, 6806995451, false, 1073969566, false, light),
        z: weigh(883024619, 2817188376, false, 6299787005, false, light),
    }
}

/// The Oklab color of the cone responses' cube roots.
pub open spec fn lab_of_roots(roots: Triple) -> Oklab {
    Oklab {
        l: weighed_signed(2104542553, 7936177850, false, 40720468, true, roots),
        a: weighed_signed(19779984951, 24285922050, true, 4505937099, false, roots),
        b: weighed_signed(259040371, 7827717662, false, 8086757660, true, roots),
    }
}

/// The Oklab color of the cone responses' cube roots.
pub fn lab_from_roots(roots: Triple) -> (res: Oklab)
    ensures
        res == lab_of_roots(roots),
{
    Oklab {
        l: weigh(2104542553, 7936177850, false, 40720468, true, roots),
        a: weigh(19779984951, 24285922050, true, 4505937099, false, roots),
        b: weigh(259040371, 7827717662, false, 8086757660, true, roots),
    }
}

/// The cube roots of the cone responses to an Oklab color.
pub open spec fn roots_of_lab(c: Oklab) -> Triple {
    Triple {
        x: sum(sum(c.l, prod(coefficient(3963377774), c.a)), prod(coefficient(2158037573), c.b)),
        y: diff(diff(c.l, prod(coefficient(1055613458), c.a)), prod(coefficient(638541728), c.b)),
        z: diff(diff(c.l, prod(coefficient(894841775), c.a)), prod(coefficient(12914855480), c.b)),
    }
}

pub open spec fn cubed(v: Double) -> Double {
    prod(prod(v, v), v)
}

/// The linear light that cone responses answer to.
pub open spec fn light_of_cones(cubes: Triple) -> Triple {
    Triple {
        x: weighed_signed(40767416621, 33077115913, true, 2309699292, false, cubes),
        y: weighed_signed(-12684380046, 26097574011, false, 3413193965, true, cubes),
        z: weighed_signed(-41960863, 7034186147, true, 17076147010, false, cubes),
    }
}

/// The linear light of an Oklab color, each channel brought into range.
pub open spec fn light_of_lab(c: Oklab) -> Triple {
    let roots = roots_of_lab(c);
    let cubes = Triple { x: cubed(roots.x), y: cubed(roots.y), z: cubed(roots.z) };
    let light = light_of_cones(cubes);
    Triple { x: share(light.x), y: share(light.y), z: share(light.z) }
}

/// The linear light of an Oklab color, each channel brought into range. A
/// color that sRGB cannot show loses saturation.
pub fn linear_light(c: Oklab) -> (res: Triple)
    ensures
        res == light_of_lab(c),
{
    let x = c.l.plus(factor(3963377774).times(c.a)).plus(factor(2158037573).times(c.b));
    let y = c.l.minus(factor(1055613458).times(c.a)).minus(factor(638541728).times(c.b));
    let z = c.l.minus(factor(894841775).times(c.a)).minus(factor(12914855480).times(c.b));
    let cubes = Triple { x: x.times(x).times(x), y: y.times(y).times(y), z: z.times(z).times(z) };
    Triple {
        x: clamp_share(weigh(40767416621, 33077115913, true, 2309699292, false, cubes)),
        y: clamp_share(weigh(-12684380046, 26097574011, false, 3413193965, true, cubes)),
        z: clamp_share(weigh(-41960863, 7034186147, true, 17076147010, false, cubes)),
    }
}

/// The Oklab color of a polar one, from the cosine and sine of its hue.
pub open spec fn lab_of_polar(c: Oklch, cosine: Double, sine: Double) -> Oklab {
    Oklab { l: c.lightness, a: prod(c.chroma, cosine), b: prod(c.chroma, sine) }
}

/// The Oklab color of a polar one, from the cosine and sine of its hue.
pub fn lab_from_polar(c: Oklch, cosine: Double, sine: Double) -> (res: Oklab)
    ensures
        res == lab_of_polar(c, cosine, sine),
{
    Oklab { l: c.lightness, a: c.chroma.times(cosine), b: c.chroma.times(sine) }
}

// ---------------------------------------------------------------------------
// Dominant colors
// ---------------------------------------------------------------------------

/// A cell of a coarse grid in Oklab.
#[derive(Clone, Copy, Debug, PartialEq, Eq, Structural)]
pub struct BucketKey {
    pub l: i32,
    pub a: i32,
    pub b: i32,
}

/// `v * steps`, rounded to a whole number.
pub open spec fn grid_step(v: Double, steps: int) -> i32 {
    clip(whole(prod(v, int_double(steps)), Rounding::Nearest), i32::MIN as int, i32::MAX as int) as i32
}

pub open spec fn bucket_of(c: Oklab) -> BucketKey {
    BucketKey { l: grid_step(c.l, 12), a: grid_step(c.a, 24), b: grid_step(c.b, 24) }
}

/// Whether one key comes before another: by lightness, then the two color
/// axes.
pub open spec fn key_less(x: BucketKey, y: BucketKey) -> bool {
    x.l < y.l || (x.l == y.l && (x.a < y.a || (x.a == y.a && x.b < y.b)))
}

/// A sample with its cell.
pub struct Tagged {
    pub key: BucketKey,
    pub pixel: Pixel,
}

/// A pixel's color, opaque and in range.
pub open spec fn pixel_color(p: Pixel) -> Rgba {
    Rgba { r: share(straight(p.r, p)), g: share(straight(p.g, p)), b: share(straight(p.b, p)), a: int_double(1) }
}

/// The samples with their cells.
pub open spec fn tagged(pixels: Seq<Pixel>, labs: Seq<Oklab>) -> Seq<Tagged> {
    Seq::new(pixels.len(), |i: int| Tagged { key: bucket_of(labs[i]), pixel: pixels[i] })
}

pub open spec fn added(t: ColorTotals, p: Pixel) -> ColorTotals {
    let c = pixel_color(p);
    let w = pixel_weight(p);
    ColorTotals {
        r: sum(t.r, prod(c.r, w)),
        g: sum(t.g, prod(c.g, w)),
        b: sum(t.b, prod(c.b, w)),
        weight: sum(t.weight, w),
    }
}

/// The weighted sum of the colors in a cell.
pub open spec fn bucket_totals(tags: Seq<Tagged>, key: BucketKey) -> ColorTotals
    decreases tags.len(),
{
    if tags.len() == 0 {
        no_totals()
    } else {
        let t = bucket_totals(tags.drop_last(), key);
        if tags.last().key == key {
            added(t, tags.last().pixel)
        } else {
            t
        }
    }
}

/// Whether a cell holds a sample.
pub open spec fn occupied(tags: Seq<Tagged>, key: BucketKey) -> bool {
    exists|i: int| 0 <= i < tags.len() && (#[trigger] tags[i]).key == key
}

/// Whether totals under a key rank before others: the heavier first, equally
/// heavy ones by their keys.
pub open spec fn outranks(x: BucketKey, t: ColorTotals, y: BucketKey, u: ColorTotals) -> bool {
    lt(u.weight, t.weight) || (!lt(t.weight, u.weight) && key_less(x, y))
}

/// Whether one cell ranks before another.
pub open spec fn ranks_before(tags: Seq<Tagged>, x: BucketKey, y: BucketKey) -> bool {
    outranks(x, bucket_totals(tags, x), y, bucket_totals(tags, y))
}

/// Whether keys are those of the occupied cells, each once, in rank order.
pub open spec fn is_ranking(keys: Seq<BucketKey>, tags: Seq<Tagged>) -> bool {
    &&& forall|i: int| 0 <= i < keys.len() ==> occupied(tags, #[trigger] keys[i])
    &&& forall|key: BucketKey| occupied(tags, key) ==> #[trigger] keys.contains(key)
    &&& forall|i: int, j: int|
        0 <= i < j < keys.len() ==> keys[i] != keys[j] && ranks_before(tags, #[trigger] keys[i], #[trigger] keys[j])
}

/// The mean color of totals.
pub open spec fn cluster_color(t: ColorTotals) -> Rgba {
    Rgba { r: quot(t.r, t.weight), g: quot(t.g, t.weight), b: quot(t.b, t.weight), a: int_double(1) }
}

/// The colors of the first cells of a ranking: as many as asked for, as far as
/// there are any.
pub open spec fn top_colors(keys: Seq<BucketKey>, tags: Seq<Tagged>, count: nat) -> Seq<Rgba> {
    Seq::new(
        if count < keys.len() {
            count
        } else {
            keys.len()
        },
        |i: int| cluster_color(bucket_totals(tags, keys[i])),
    )
}

struct Bucket {
    key: BucketKey,
    totals: ColorTotals,
}

/// A number that is not negative.
pub open spec fn not_negative(a: Double) -> bool {
    !a.nan() && !a.neg()
}

proof fn lemma_weight_not_negative(p: Pixel)
    ensures
        not_negative(pixel_weight(p)),
{
    lemma_int_double_exact(p.a as int);
    lemma_int_double_exact(255);
    vstd::arithmetic::power2::lemma_pow2_pos(UNIT_EXP as nat);
    lemma_quot_sign(int_double(p.a as int), int_double(255));
}

proof fn lemma_totals_not_negative(tags: Seq<Tagged>, key: BucketKey)
    ensures
        not_negative(bucket_totals(tags, key).weight),
    decreases tags.len(),
{
    lemma_int_double_exact(0);
    if tags.len() > 0 {
        lemma_totals_not_negative(tags.drop_last(), key);
        lemma_weight_not_negative(tags.last().pixel);
        lemma_sum_sign(
            bucket_totals(tags.drop_last(), key).weight,
            pixel_weight(tags.last().pixel),
        );
    }
}

/// An empty cell has no totals.
proof fn lemma_empty_bucket(tags: Seq<Tagged>, key: BucketKey)
    requires
        !occupied(tags, key),
    ensures
        bucket_totals(tags, key) == no_totals(),
    decreases tags.len(),
{
    if tags.len() > 0 {
        let init = tags.drop_last();
        assert(!occupied(init, key)) by {
            if occupied(init, key) {
                let i = choose|i: int| 0 <= i < init.len() && (#[trigger] init[i]).key == key;
                assert(tags[i].key == key);
            }
        }
        assert(tags[tags.len() - 1].key != key);
        lemma_empty_bucket(init, key);
    }
}

fn step_of(v: Double, steps: i64) -> (res: i32)
    ensures
        res == grid_step(v, steps as int),
{
    v.times(Double::from_int(steps)).to_int(Rounding::Nearest, i32::MIN as i128, i32::MAX as i128) as i32
}

/// A sampled pixel's color, opaque and in range: the alpha that the channels
/// are multiplied with is divided out.
pub fn color_of_pixel(p: Pixel) -> (res: Rgba)
    ensures
        res == pixel_color(p),
{
    let a = Double::from_int(p.a as i64);
    Rgba {
        r: clamp_share(Double::from_int(p.r as i64).over(a)),
        g: clamp_share(Double::from_int(p.g as i64).over(a)),
        b: clamp_share(Double::from_int(p.b as i64).over(a)),
        a: Double::one(),
    }
}

fn add_pixel(t: ColorTotals, p: Pixel) -> (res: ColorTotals)
    ensures
        res == added(t, p),
{
    let w = Double::from_int(p.a as i64).over(Double::from_int(255));
    let c = color_of_pixel(p);
    ColorTotals {
        r: t.r.plus(c.r.times(w)),
        g: t.g.plus(c.g.times(w)),
        b: t.b.plus(c.b.times(w)),
        weight: t.weight.plus(w),
    }
}

/// What the buckets say of the samples so far.
spec fn buckets_hold(buckets: Seq<Bucket>, tags: Seq<Tagged>) -> bool {
    &&& forall|i: int, j: int|
        0 <= i < j < buckets.len() ==> (#[trigger] buckets[i]).key != (#[trigger] buckets[j]).key
    &&& forall|i: int|
        0 <= i < buckets.len() ==> occupied(tags, (#[trigger] buckets[i]).key) && buckets[i].totals == bucket_totals(
            tags,
            buckets[i].key,
        )
    &&& forall|key: BucketKey| #[trigger]
        occupied(tags, key) ==> exists|i: int| 0 <= i < buckets.len() && (#[trigger] buckets[i]).key == key
}

fn collect_buckets(pixels: &[Pixel], labs: &[Oklab]) -> (buckets: Vec<Bucket>)
    requires
        pixels.len() == labs.len(),
    ensures
        buckets_hold(buckets@, tagged(pixels@, labs@)),
{
    let ghost tags = tagged(pixels@, labs@);
    let mut buckets: Vec<Bucket> = Vec::new();
    let mut i: usize = 0;
    while i < pixels.len()
        invariant
            i <= pixels.len(),
            pixels.len() == labs.len(),
            tags == tagged(pixels@, labs@),
            buckets_hold(buckets@, tags.take(i as int)),
        decreases pixels.len() - i,
    {
        let lab = labs[i];
        let key = BucketKey { l: step_of(lab.l, 12), a: step_of(lab.a, 24), b: step_of(lab.b, 24) };
        let ghost before = buckets@;
        let ghost was = tags.take(i as int);
        let ghost now = tags.take(i + 1);
        proof {
            assert(now.drop_last() =~= was);
            assert(now.last() == tags[i as int]);
            assert forall|k: BucketKey| #[trigger] occupied(now, k) <==> occupied(was, k) || k == key by {
                if occupied(was, k) {
                    let m = choose|m: int| 0 <= m < was.len() && (#[trigger] was[m]).key == k;
                    assert(now[m].key == k);
                }
                if k == key {
                    assert(now[i as int].key == k);
                }
                if occupied(now, k) && k != key {
                    let m = choose|m: int| 0 <= m < now.len() && (#[trigger] now[m]).key == k;
                    assert(m < i);
                    assert(was[m].key == k);
                }
            }
        }
        let mut at: usize = 0;
        while at < buckets.len() && buckets[at].key != key
            invariant
                at <= buckets.len(),
                forall|m: int| 0 <= m < at ==> (#[trigger] buckets[m]).key != key,
            decreases buckets.len() - at,
        {
            at = at + 1;
        }
        if at < buckets.len() {
            let totals = add_pixel(buckets[at].totals, pixels[i]);
            buckets[at] = Bucket { key, totals };
            proof {
                assert forall|a: int, b: int| 0 <= a < b < buckets.len() implies (#[trigger] buckets[a]).key != (
                #[trigger] buckets[b]).key by {
                    assert(before[a].key != before[b].key);
                }
                assert forall|m: int| 0 <= m < buckets.len() implies occupied(now, (#[trigger] buckets[m]).key)
                    && buckets[m].totals == bucket_totals(now, buckets[m].key) by {
                    if m != at {
                        assert(before[m].key == buckets[m].key);
                        if m < at {
                            assert(before[m].key != before[at as int].key);
                        } else {
                            assert(before[at as int].key != before[m].key);
                        }
                    }
                }
                assert forall|k: BucketKey| #[trigger] occupied(now, k) implies exists|m: int|
                    0 <= m < buckets.len() && (#[trigger] buckets[m]).key == k by {
                    if k == key {
                        assert(buckets[at as int].key == k);
                    } else {
                        assert(occupied(was, k));
                        let m = choose|m: int| 0 <= m < before.len() && (#[trigger] before[m]).key == k;
                        assert(buckets[m].key == k);
                    }
                }
            }
        } else {
            proof {
                assert(!occupied(was, key)) by {
                    if occupied(was, key) {
                        let m = choose|m: int| 0 <= m < before.len() && (#[trigger] before[m]).key == key;
                        assert(before[m].key != key);
                    }
                }
                lemma_empty_bucket(was, key);
            }
            let nothing = ColorTotals {
                r: Double::zero(),
                g: Double::zero(),
                b: Double::zero(),
                weight: Double::zero(),
            };
            let totals = add_pixel(nothing, pixels[i]);
            buckets.push(Bucket { key, totals });
            proof {
                assert forall|a: int, b: int| 0 <= a < b < buckets.len() implies (#[trigger] buckets[a]).key != (
                #[trigger] buckets[b]).key by {
                    assert(buckets[a] == before[a]);
                    if b < before.len() {
                        assert(before[a].key != before[b].key);
                    }
                }
                assert forall|m: int| 0 <= m < buckets.len() implies occupied(now, (#[trigger] buckets[m]).key)
                    && buckets[m].totals == bucket_totals(now, buckets[m].key) by {
                    if m < before.len() {
                        assert(before[m] == buckets[m]);
                    }
                }
                assert forall|k: BucketKey| #[trigger] occupied(now, k) implies exists|m: int|
                    0 <= m < buckets.len() && (#[trigger] buckets[m]).key == k by {
                    if k == key {
                        assert(buckets[before.len() as int].key == k);
                    } else {
                        assert(occupied(was, k));
                        let m = choose|m: int| 0 <= m < before.len() && (#[trigger] before[m]).key == k;
                        assert(buckets[m].key == k);
                    }
                }
            }
        }
        i = i + 1;
    }
    proof {
        assert(tags.take(i as int) =~= tags);
    }
    buckets
}

fn less_key(x: BucketKey, y: BucketKey) -> (res: bool)
    ensures
        res == key_less(x, y),
{
    x.l < y.l || (x.l == y.l && (x.a < y.a || (x.a == y.a && x.b < y.b)))
}

/// Ranking is transitive and total on cells whose weights are numbers.
proof fn lemma_rank_order(tags: Seq<Tagged>, x: BucketKey, y: BucketKey, z: BucketKey)
    ensures
        ranks_before(tags, x, y) && ranks_before(tags, y, z) ==> ranks_before(tags, x, z),
        x != y ==> ranks_before(tags, x, y) || ranks_before(tags, y, x),
        !(ranks_before(tags, x, y) && ranks_before(tags, y, x)),
{
    lemma_totals_not_negative(tags, x);
    lemma_totals_not_negative(tags, y);
    lemma_totals_not_negative(tags, z);
}

/// The keys of buckets.
spec fn keys_of(buckets: Seq<Bucket>) -> Seq<BucketKey> {
    buckets.map_values(|b: Bucket| b.key)
}

/// Buckets in rank order.
spec fn in_rank_order(buckets: Seq<Bucket>, tags: Seq<Tagged>) -> bool {
    forall|i: int, j: int|
        0 <= i < j < buckets.len() ==> (#[trigger] buckets[i]).key != (#[trigger] buckets[j]).key && ranks_before(
            tags,
            buckets[i].key,
            buckets[j].key,
        )
}

fn rank(buckets: Vec<Bucket>, tags: Ghost<Seq<Tagged>>) -> (ranked: Vec<Bucket>)
    requires
        buckets_hold(buckets@, tags@),
    ensures
        is_ranking(keys_of(ranked@), tags@),
        totals_hold(ranked@, tags@),
{
    let mut ranked: Vec<Bucket> = Vec::new();
    let mut i: usize = 0;
    proof {
        assert(keys_of(ranked@).to_set() =~= keys_of(buckets@.take(0)).to_set());
    }
    while i < buckets.len()
        invariant
            i <= buckets.len(),
            buckets_hold(buckets@, tags@),
            in_rank_order(ranked@, tags@),
            totals_hold(ranked@, tags@),
            keys_of(ranked@).to_set() == keys_of(buckets@.take(i as int)).to_set(),
        decreases buckets.len() - i,
    {
        let ghost before = keys_of(ranked@);
        let ghost taken = keys_of(buckets@.take(i as int));
        let ghost key = buckets[i as int].key;
        proof {
            if before.contains(key) {
                assert(before.to_set().contains(key));
                assert(taken.contains(key));
                let k = choose|k: int| 0 <= k < taken.len() && taken[k] == key;
                assert(buckets[k].key != buckets[i as int].key);
            }
            assert forall|m: int| 0 <= m < ranked.len() implies (#[trigger] ranked[m]).key != key by {
                assert(before[m] == ranked[m].key);
            }
            assert(keys_of(buckets@.take(i + 1)) =~= taken.push(key));
            assert(taken.push(key).to_set() =~= taken.to_set().insert(key)) by {
                lemma_set_of_insert(taken, taken.len() as int, key);
            }
        }
        let bucket = Bucket { key: buckets[i].key, totals: buckets[i].totals };
        insert_ranked(&mut ranked, bucket, tags);
        i = i + 1;
    }
    proof {
        assert(buckets@.take(i as int) =~= buckets@);
        let keys = keys_of(ranked@);
        assert forall|m: int| 0 <= m < keys.len() implies occupied(tags@, #[trigger] keys[m]) by {
            assert(keys.to_set().contains(keys[m]));
            assert(keys_of(buckets@).contains(keys[m]));
            let k = choose|k: int| 0 <= k < buckets.len() && keys_of(buckets@)[k] == keys[m];
            assert(occupied(tags@, buckets[k].key));
        }
        assert forall|key: BucketKey| occupied(tags@, key) implies #[trigger] keys.contains(key) by {
            let k = choose|k: int| 0 <= k < buckets.len() && (#[trigger] buckets[k]).key == key;
            assert(keys_of(buckets@)[k] == key);
            assert(keys_of(buckets@).to_set().contains(key));
        }
        assert forall|a: int, b: int| 0 <= a < b < keys.len() implies keys[a] != keys[b] && ranks_before(
            tags@,
            #[trigger] keys[a],
            #[trigger] keys[b],
        ) by {
            assert(keys[a] == ranked[a].key && keys[b] == ranked[b].key);
        }
    }
    ranked
}

/// Every bucket holds the totals of its cell.
spec fn totals_hold(buckets: Seq<Bucket>, tags: Seq<Tagged>) -> bool {
    forall|i: int|
        0 <= i < buckets.len() ==> (#[trigger] buckets[i]).totals == bucket_totals(tags, buckets[i].key)
}

proof fn lemma_set_of_insert(keys: Seq<BucketKey>, at: int, key: BucketKey)
    requires
        0 <= at <= keys.len(),
    ensures
        keys.insert(at, key).to_set() == keys.to_set().insert(key),
        at == keys.len() ==> keys.push(key) == keys.insert(at, key),
{
    let after = keys.insert(at, key);
    if at == keys.len() {
        assert(keys.push(key) =~= after);
    }
    assert forall|k: BucketKey| #[trigger] after.to_set().contains(k) <==> keys.to_set().insert(key).contains(k) by {
        if after.contains(k) {
            let m = choose|m: int| 0 <= m < after.len() && after[m] == k;
            if m < at {
                assert(keys[m] == k);
            } else if m > at {
                assert(keys[m - 1] == k);
            }
        }
        if keys.contains(k) {
            let m = choose|m: int| 0 <= m < keys.len() && keys[m] == k;
            if m < at {
                assert(after[m] == k);
            } else {
                assert(after[m + 1] == k);
            }
        }
        assert(after[at] == key);
    }
    assert(after.to_set() =~= keys.to_set().insert(key));
}

fn is_outranking(x: BucketKey, t: ColorTotals, y: BucketKey, u: ColorTotals) -> (res: bool)
    ensures
        res == outranks(x, t, y, u),
{
    u.weight.less(t.weight) || (!t.weight.less(u.weight) && less_key(x, y))
}

fn insert_ranked(ranked: &mut Vec<Bucket>, bucket: Bucket, tags: Ghost<Seq<Tagged>>)
    requires
        in_rank_order(old(ranked)@, tags@),
        totals_hold(old(ranked)@, tags@),
        bucket.totals == bucket_totals(tags@, bucket.key),
        forall|m: int| 0 <= m < old(ranked).len() ==> (#[trigger] old(ranked)[m]).key != bucket.key,
    ensures
        in_rank_order(final(ranked)@, tags@),
        totals_hold(final(ranked)@, tags@),
        keys_of(final(ranked)@).to_set() == keys_of(old(ranked)@).to_set().insert(bucket.key),
{
    let ghost before = ranked@;
    let ghost key = bucket.key;
    let mut at: usize = 0;
    while at < ranked.len() && !is_outranking(bucket.key, bucket.totals, ranked[at].key, ranked[at].totals)
        invariant
            at <= ranked.len(),
            ranked@ == before,
            key == bucket.key,
            bucket.totals == bucket_totals(tags@, bucket.key),
            totals_hold(before, tags@),
            forall|m: int| 0 <= m < at ==> !ranks_before(tags@, key, (#[trigger] before[m]).key),
        decreases ranked.len() - at,
    {
        at = at + 1;
    }
    proof {
        let after = before.insert(at as int, bucket);
        assert forall|a: int, b: int| 0 <= a < b < after.len() implies (#[trigger] after[a]).key != (
        #[trigger] after[b]).key && ranks_before(tags@, after[a].key, after[b].key) by {
            let a2 = if a < at { a } else { a - 1 };
            let b2 = if b < at { b } else { b - 1 };
            if a != at && b != at {
                assert(after[a] == before[a2] && after[b] == before[b2]);
                assert(before[a2].key != before[b2].key);
            } else if b == at {
                assert(after[a] == before[a2]);
                lemma_rank_order(tags@, before[a2].key, key, key);
            } else {
                assert(after[b] == before[b2]);
                assert(ranks_before(tags@, key, before[at as int].key));
                if b2 > at {
                    assert(before[at as int].key != before[b2].key);
                    lemma_rank_order(tags@, key, before[at as int].key, before[b2].key);
                }
            }
        }
        assert forall|m: int| 0 <= m < after.len() implies (#[trigger] after[m]).totals == bucket_totals(
            tags@,
            after[m].key,
        ) by {
            if m < at {
                assert(after[m] == before[m]);
            } else if m > at {
                assert(after[m] == before[m - 1]);
            }
        }
        assert(keys_of(after) =~= keys_of(before).insert(at as int, key));
        lemma_set_of_insert(keys_of(before), at as int, key);
    }
    ranked.insert(at, bucket);
}

/// The dominant colors among sampled pixels, given with their Oklab colors:
/// the mean colors of the `count` heaviest cells of a coarse Oklab grid, the
/// heaviest first. Equally heavy cells go by their place in the grid, so that nothing
/// depends on the order in which cells are found.
pub fn extract_palette(pixels: &[Pixel], labs: &[Oklab], count: usize) -> (res: Vec<Rgba>)
    requires
        pixels.len() == labs.len(),
    ensures
        exists|keys: Seq<BucketKey>| #[trigger]
            is_ranking(keys, tagged(pixels@, labs@)) && res@ == top_colors(keys, tagged(pixels@, labs@), count as nat),
{
    let ghost tags = tagged(pixels@, labs@);
    let ranked = rank(collect_buckets(pixels, labs), Ghost(tags));
    let ghost keys = keys_of(ranked@);
    let ghost goal = top_colors(keys, tags, count as nat);
    let mut res: Vec<Rgba> = Vec::new();
    let mut i: usize = 0;
    while i < ranked.len() && i < count
        invariant
            i <= ranked.len(),
            i <= count,
            keys == keys_of(ranked@),
            goal == top_colors(keys, tags, count as nat),
            totals_hold(ranked@, tags),
            res@ == goal.take(i as int),
        decreases ranked.len() - i,
    {
        let t = ranked[i].totals;
        res.push(Rgba::new(t.r.over(t.weight), t.g.over(t.weight), t.b.over(t.weight), Double::one()));
        proof {
            assert(keys[i as int] == ranked[i as int].key);
            assert(goal.take(i + 1) =~= goal.take(i as int).push(goal[i as int]));
        }
        i = i + 1;
    }
    proof {
        assert(goal.take(i as int) =~= goal);
        assert(is_ranking(keys, tags));
    }
    res
}

/// There is one ranking: dominant colors depend on the samples alone.
pub proof fn law_ranking_is_unique(a: Seq<BucketKey>, b: Seq<BucketKey>, tags: Seq<Tagged>)
    requires
        is_ranking(a, tags),
        is_ranking(b, tags),
    ensures
        a == b,
{
    assert forall|i: int| 0 <= i < a.len() implies i < b.len() && #[trigger] a[i] == b[i] by {
        lemma_ranking_agrees(a, b, tags, i);
    }
    if a.len() < b.len() {
        let i = a.len() as int;
        assert(a.contains(b[i]));
        let q = choose|q: int| 0 <= q < a.len() && a[q] == b[i];
        assert(a[q] == b[q]);
        assert(b[q] != b[i]);
    } else if b.len() < a.len() {
        lemma_ranking_agrees(a, b, tags, b.len() as int);
    }
    assert(a =~= b);
}

proof fn lemma_ranking_agrees(a: Seq<BucketKey>, b: Seq<BucketKey>, tags: Seq<Tagged>, i: int)
    requires
        is_ranking(a, tags),
        is_ranking(b, tags),
        0 <= i < a.len(),
    ensures
        i < b.len(),
        a[i] == b[i],
    decreases i,
{
    assert(b.contains(a[i]));
    let p = choose|p: int| 0 <= p < b.len() && b[p] == a[i];
    if p < i {
        lemma_ranking_agrees(a, b, tags, p);
        assert(a[p] != a[i]);
    }
    assert(a.contains(b[i]));
    let q = choose|q: int| 0 <= q < a.len() && a[q] == b[i];
    if q < i {
        lemma_ranking_agrees(a, b, tags, q);
        assert(b[q] != b[i]);
    }
    if p > i && q > i {
        assert(ranks_before(tags, b[i], b[p]));
        assert(ranks_before(tags, a[i], a[q]));
        lemma_rank_order(tags, a[i], b[i], a[i]);
    }
}

/// No more dominant colors come out than were asked for, and none from no
/// samples.
pub proof fn law_no_more_colors_than_requested(keys: Seq<BucketKey>, tags: Seq<Tagged>, count: nat)
    requires
        is_ranking(keys, tags),
    ensures
        top_colors(keys, tags, count).len() <= count,
        tags.len() == 0 ==> top_colors(keys, tags, count).len() == 0,
{
    if tags.len() == 0 && keys.len() > 0 {
        assert(occupied(tags, keys[0]));
    }
}

// ---------------------------------------------------------------------------
// Suggestions
// ---------------------------------------------------------------------------

/// `a` brought into the range from zero to `full` by whole turns.
pub open spec fn turned(a: Double, full: Double) -> Double {
    let r = remainder(a, full);
    if lt(r, int_double(0)) {
        sum(r, magnitude(full))
    } else {
        r
    }
}

/// A two-stop gradient in polar Oklab.
#[derive(Clone, Copy, Debug, PartialEq)]
pub struct GradientPlan {
    pub angle_deg: Double,
    pub first: Oklch,
    pub last: Oklch,
}

/// The angle whose sine spreads a seed's suggestion.
pub open spec fn spread_angle_of(seed: u32) -> Double {
    prod(prod(prod(int_double(seed as int), ratio(6180339887, 10000000000)), int_double(2)), pi())
}

/// The angle whose sine spreads a seed's suggestion.
pub fn spread_angle(seed: u32) -> (res: Double)
    ensures
        res == spread_angle_of(seed),
{
    Double::from_int(seed as i64).times(Double::ratio(6180339887, 10000000000)).times(Double::from_int(2)).times(
        Double::pi(),
    )
}

/// The gradient that complements a source color: the opposite hue and the
/// inverted lightness, with the chroma held back.
pub open spec fn complement(lightness: Double, chroma: Double, hue: Double, seed: u32, sine: Double) -> GradientPlan {
    let opposite_hue = sum(hue, pi());
    let base_lightness = within(diff(int_double(1), lightness), ratio(20, 100), ratio(85, 100));
    let base_chroma = within(prod(chroma, ratio(7, 10)), ratio(2, 100), ratio(9, 100));
    let spread = prod(sine, ratio(5, 10));
    GradientPlan {
        angle_deg: turned(prod(int_double(seed as int), ratio(63398, 1000)), int_double(360)),
        first: Oklch {
            lightness: base_lightness,
            chroma: base_chroma,
            hue: sum(diff(opposite_hue, ratio(4, 10)), spread),
        },
        last: Oklch {
            lightness: within(prod(base_lightness, ratio(115, 100)), ratio(8, 100), ratio(95, 100)),
            chroma: prod(base_chroma, ratio(8, 10)),
            hue: sum(sum(opposite_hue, ratio(4, 10)), spread),
        },
    }
}

/// `lo / d` is no greater than `hi / d`.
proof fn lemma_ratio_order(lo: int, hi: int, d: int)
    requires
        0 <= lo <= hi <= 1000000,
        0 < d <= 1000000,
    ensures
        le(ratio(lo, d), ratio(hi, d)),
{
    lemma_int_double_exact(lo);
    lemma_int_double_exact(hi);
    lemma_int_double_exact(d);
    vstd::arithmetic::power2::lemma_pow2_pos(UNIT_EXP as nat);
    let u = one_unit() as int;
    assert(lo * u <= hi * u && d * u > 0) by (nonlinear_arith)
        requires
            lo <= hi,
            d > 0,
            u > 0,
    ;
    lemma_quot_monotone(int_double(lo), int_double(hi), int_double(d));
}

fn clamp_ratio(v: Double, lo: i64, hi: i64, d: i64) -> (res: Double)
    requires
        0 <= lo <= hi <= 1000000,
        0 < d <= 1000000,
    ensures
        res == within(v, ratio(lo as int, d as int), ratio(hi as int, d as int)),
{
    proof {
        lemma_ratio_order(lo as int, hi as int, d as int);
    }
    v.clamp(Double::ratio(lo, d), Double::ratio(hi, d))
}

/// A gradient that complements a source color, given by its lightness, chroma
/// and hue. Seeds differ in the hues and the angle, and in nothing else; `sine`
/// is the sine of the seed's spread angle.
pub fn suggest_gradient(lightness: Double, chroma: Double, hue: Double, seed: u32, sine: Double) -> (res: GradientPlan)
    ensures
        res == complement(lightness, chroma, hue, seed, sine),
{
    let opposite_hue = hue.plus(Double::pi());
    let base_lightness = clamp_ratio(Double::one().minus(lightness), 20, 85, 100);
    let base_chroma = clamp_ratio(chroma.times(Double::ratio(7, 10)), 2, 9, 100);
    let spread = sine.times(Double::ratio(5, 10));
    let turns = Double::from_int(seed as i64).times(Double::ratio(63398, 1000));
    let full = Double::from_int(360);
    let left = turns.rem(full);
    let angle_deg = if left.less(Double::zero()) {
        left.plus(full.abs())
    } else {
        left
    };
    let part = Double::ratio(4, 10);
    GradientPlan {
        angle_deg,
        first: Oklch {
            lightness: base_lightness,
            chroma: base_chroma,
            hue: opposite_hue.minus(part).plus(spread),
        },
        last: Oklch {
            lightness: clamp_ratio(base_lightness.times(Double::ratio(115, 100)), 8, 95, 100),
            chroma: base_chroma.times(Double::ratio(8, 10)),
            hue: opposite_hue.plus(part).plus(spread),
        },
    }
}

/// A product with a positive finite number, or of two positive ones, is a
/// number.
proof fn lemma_prod_number(a: Double, b: Double)
    requires
        !a.nan(),
        !b.nan(),
        b.val() > 0,
        b.finite() || a.val() > 0,
    ensures
        !prod(a, b).nan(),
{
    reveal(prod);
    lemma_round_bounded(a.mag() * b.mag(), one_unit());
    lemma_mag_ordered(a.low(), 0);
}

/// Every seed contrasts with the source alike: suggestions for the same color
/// have the same lightness and the same chroma, whatever the seeds, and the
/// lightness and the chroma stay in a background's range.
#[verifier::spinoff_prover]
#[verifier::rlimit(40)]
pub proof fn law_every_seed_contrasts_alike(
    lightness: Double,
    chroma: Double,
    hue: Double,
    seed: u32,
    sine: Double,
    other: u32,
    other_sine: Double,
)
    requires
        !lightness.nan(),
        !chroma.nan(),
    ensures
        ({
            let a = complement(lightness, chroma, hue, seed, sine);
            let b = complement(lightness, chroma, hue, other, other_sine);
            &&& a.first == (Oklch { hue: a.first.hue, ..b.first })
            &&& a.last == (Oklch { hue: a.last.hue, ..b.last })
            &&& le(ratio(20, 100), a.first.lightness) && le(a.first.lightness, ratio(85, 100))
            &&& le(ratio(2, 100), a.first.chroma) && le(a.first.chroma, ratio(9, 100))
            &&& le(ratio(8, 100), a.last.lightness) && le(a.last.lightness, ratio(95, 100))
        }),
{
    lemma_ratio_order(20, 85, 100);
    lemma_ratio_order(2, 9, 100);
    lemma_ratio_order(8, 95, 100);
    lemma_ratio_order(20, 115, 100);
    lemma_fraction(20, 100);
    lemma_fraction(7, 10);
    lemma_int_double_exact(1);
    assert(!diff(int_double(1), lightness).nan()) by {
        reveal(sum);
        let v = int_double(1).val() + opposite(lightness).val();
        lemma_round_units_monotone(v, v);
    }
    lemma_prod_number(chroma, ratio(7, 10));
    lemma_prod_number(complement(lightness, chroma, hue, seed, sine).first.lightness, ratio(115, 100));
}

/// Where the `i`th of `count` swatches lies, from minus a half to a half.
pub open spec fn swatch_place(i: int, count: int) -> Double {
    if count <= 1 {
        int_double(0)
    } else {
        diff(quot(int_double(i), int_double(count - 1)), ratio(5, 10))
    }
}

/// Swatches of one hue and chroma over a band of lightness.
pub open spec fn lightness_band(hue: Double, lightness: Double, chroma: Double, spread: Double, count: nat) -> Seq<Oklch> {
    Seq::new(
        count,
        |i: int|
            Oklch {
                lightness: within(
                    sum(lightness, prod(swatch_place(i, count as int), spread)),
                    ratio(5, 100),
                    ratio(95, 100),
                ),
                chroma,
                hue,
            },
    )
}

/// Swatches of one lightness and chroma over a band of hues.
pub open spec fn hue_band(hue: Double, lightness: Double, chroma: Double, spread: Double, count: nat) -> Seq<Oklch> {
    Seq::new(
        count,
        |i: int|
            Oklch { lightness, chroma, hue: sum(hue, prod(swatch_place(i, count as int), spread)) },
    )
}

fn place_of(i: usize, count: usize) -> (res: Double)
    ensures
        res == swatch_place(i as int, count as int),
{
    if count <= 1 {
        Double::zero()
    } else {
        Double::from_u64(i as u64).over(Double::from_u64(count as u64 - 1)).minus(Double::ratio(5, 10))
    }
}

fn lightness_variations(hue: Double, lightness: Double, chroma: Double, spread: Double, count: usize) -> (res: Vec<Oklch>)
    ensures
        res@ == lightness_band(hue, lightness, chroma, spread, count as nat),
{
    let mut res: Vec<Oklch> = Vec::new();
    let mut i: usize = 0;
    while i < count
        invariant
            i <= count,
            res@ == lightness_band(hue, lightness, chroma, spread, count as nat).take(i as int),
        decreases count - i,
    {
        let swatch = Oklch {
            lightness: clamp_ratio(lightness.plus(place_of(i, count).times(spread)), 5, 95, 100),
            chroma,
            hue,
        };
        res.push(swatch);
        proof {
            let all = lightness_band(hue, lightness, chroma, spread, count as nat);
            assert(all.take(i + 1) =~= all.take(i as int).push(swatch));
        }
        i = i + 1;
    }
    proof {
        let all = lightness_band(hue, lightness, chroma, spread, count as nat);
        assert(all.take(i as int) =~= all);
    }
    res
}

fn hue_variations(hue: Double, lightness: Double, chroma: Double, spread: Double, count: usize) -> (res: Vec<Oklch>)
    ensures
        res@ == hue_band(hue, lightness, chroma, spread, count as nat),
{
    let mut res: Vec<Oklch> = Vec::new();
    let mut i: usize = 0;
    while i < count
        invariant
            i <= count,
            res@ == hue_band(hue, lightness, chroma, spread, count as nat).take(i as int),
        decreases count - i,
    {
        let swatch = Oklch { lightness, chroma, hue: hue.plus(place_of(i, count).times(spread)) };
        res.push(swatch);
        proof {
            let all = hue_band(hue, lightness, chroma, spread, count as nat);
            assert(all.take(i + 1) =~= all.take(i as int).push(swatch));
        }
        i = i + 1;
    }
    proof {
        let all = hue_band(hue, lightness, chroma, spread, count as nat);
        assert(all.take(i as int) =~= all);
    }
    res
}

/// The number that an output of the generator stands for in a range.
pub open spec fn drawn(state: u64, lo: Double, hi: Double) -> Double {
    in_range(output(state), lo, hi)
}

/// A palette that depends on a seed alone.
pub open spec fn seeded_palette(seed: u64) -> Seq<Oklch> {
    let s0 = seed ^ 0xA5A5_A5A5_A5A5_A5A5;
    let s1 = stepped(s0);
    let s2 = stepped(s1);
    let s3 = stepped(s2);
    hue_band(
        drawn(s0, int_double(0), prod(pi(), int_double(2))),
        drawn(s2, ratio(3, 10), ratio(7, 10)),
        drawn(s1, ratio(6, 100), ratio(14, 100)),
        drawn(s3, ratio(6, 10), ratio(16, 10)),
        4,
    )
}

fn random_palette(seed: u64) -> (res: Vec<Oklch>)
    ensures
        res@ == seeded_palette(seed),
{
    let mut rng = Rng::new(seed ^ 0xA5A5_A5A5_A5A5_A5A5);
    let base_hue = rng.range(Double::zero(), Double::pi().times(Double::from_int(2)));
    let chroma = rng.range(Double::ratio(6, 100), Double::ratio(14, 100));
    let lightness = rng.range(Double::ratio(3, 10), Double::ratio(7, 10));
    let spread = rng.range(Double::ratio(6, 10), Double::ratio(16, 10));
    hue_variations(base_hue, lightness, chroma, spread, 4)
}

/// A lightness moved toward its inverse by a share.
pub open spec fn inverted(lightness: Double, strength: Double) -> Double {
    sum(
        prod(lightness, diff(int_double(1), strength)),
        prod(diff(int_double(1), lightness), strength),
    )
}

/// The palette of a strategy, from the lightness, chroma and hue of the color
/// that it starts from.
pub open spec fn palette_of(strategy: ColorStrategy, base: Oklch, inverse_contrast: Double, seed: u64) -> Seq<Oklch> {
    let strength = share(inverse_contrast);
    match strategy {
        ColorStrategy::Manual => Seq::empty(),
        ColorStrategy::Random => seeded_palette(seed),
        ColorStrategy::Grayscale => lightness_band(int_double(0), base.lightness, int_double(0), ratio(8, 10), 4),
        ColorStrategy::FromScreenshots => lightness_band(
            sum(base.hue, prod(pi(), strength)),
            inverted(base.lightness, strength),
            within(prod(base.chroma, ratio(8, 10)), ratio(3, 100), ratio(16, 100)),
            ratio(15, 100),
            4,
        ),
    }
}

/// The palette of a strategy. Manual colors are the user's, so there is
/// nothing to resolve for them. `base` is the color to start from, in polar
/// form; random palettes and manual ones ignore it. Only a palette from the
/// screenshots turns toward their complement by `inverse_contrast`.
pub fn resolve_palette(strategy: ColorStrategy, base: Oklch, inverse_contrast: Double, seed: u64) -> (res: Vec<Oklch>)
    ensures
        res@ == palette_of(strategy, base, inverse_contrast, seed),
{
    match strategy {
        ColorStrategy::Manual => Vec::new(),
        ColorStrategy::Random => random_palette(seed),
        ColorStrategy::Grayscale => {
            lightness_variations(Double::zero(), base.lightness, Double::zero(), Double::ratio(8, 10), 4)
        },
        ColorStrategy::FromScreenshots => {
            let strength = clamp_share(inverse_contrast);
            let one = Double::one();
            let lightness = base.lightness.times(one.minus(strength)).plus(one.minus(base.lightness).times(strength));
            let hue = base.hue.plus(Double::pi().times(strength));
            let chroma = clamp_ratio(base.chroma.times(Double::ratio(8, 10)), 3, 16, 100);
            lightness_variations(hue, lightness, chroma, Double::ratio(15, 100), 4)
        },
    }
}

/// The color that a palette starts from: the most dominant one, or the average
/// where there is none.
pub fn base_color(dominant: &[Rgba], average: Rgba) -> (res: Rgba)
    ensures
        res == if dominant.len() > 0 {
            dominant[0]
        } else {
            average
        },
{
    if dominant.len() > 0 {
        dominant[0]
    } else {
        average
    }
}

/// A random palette ignores the screenshots, a gray one has no chroma, every
/// strategy but the manual one gives four swatches, and every strategy but the
/// one that starts from the screenshots ignores the inverse contrast.
pub proof fn law_palettes(
    strategy: ColorStrategy,
    base: Oklch,
    other: Oklch,
    inverse_contrast: Double,
    other_contrast: Double,
    seed: u64,
)
    ensures
        strategy != ColorStrategy::FromScreenshots ==> palette_of(strategy, base, inverse_contrast, seed)
            == palette_of(strategy, base, other_contrast, seed),
        palette_of(ColorStrategy::Random, base, inverse_contrast, seed) == palette_of(
            ColorStrategy::Random,
            other,
            inverse_contrast,
            seed,
        ),
        palette_of(strategy, base, inverse_contrast, seed).len() == if strategy == ColorStrategy::Manual {
            0nat
        } else {
            4
        },
        forall|i: int|
            0 <= i < 4 ==> (#[trigger] palette_of(ColorStrategy::Grayscale, base, inverse_contrast, seed)[i]).chroma
                == int_double(0),
{
}

} // verus!
