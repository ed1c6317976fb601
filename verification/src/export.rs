//! What an export writes: its size, its pixels and, for the formats that the
//! drawing library does not write itself, the encoded file.
use crate::arith_laws::{lemma_int_double_exact, lemma_round_exact};
use crate::double::{lemma_mag_ordered, one_unit, prod, quot, signed, Double, UNIT_EXP};
use crate::model::{CanvasSettings, ExportFormat};
use crate::rounding::{lemma_round_scale, lemma_round_zero, round_low};
use crate::whole::{clip, int_double, whole, Rounding};
use vstd::arithmetic::div_mod::*;
use vstd::arithmetic::mul::*;
use vstd::arithmetic::power2::*;
use vstd::prelude::*;

verus! {

/// The size of an export and the scale that it is drawn at.
#[derive(Clone, Copy, Debug, PartialEq)]
pub struct OutputSize {
    pub scale: Double,
    pub width: u32,
    pub height: u32,
}

pub open spec fn at_least_one(n: u32) -> u32 {
    if n < 1 {
        1
    } else {
        n
    }
}

pub open spec fn output_size_of(canvas: CanvasSettings) -> OutputSize {
    let scale = quot(
        int_double(canvas.export_target_width as int),
        int_double(at_least_one(canvas.export_width) as int),
    );
    let rows = clip(
        whole(prod(int_double(canvas.export_height as int), scale), Rounding::Nearest),
        0,
        u32::MAX as int,
    ) as u32;
    OutputSize { scale, width: at_least_one(canvas.export_target_width), height: at_least_one(rows) }
}

/// The size of an export: the canvas scaled to the target width, the height
/// in proportion, so that nothing is cropped or stretched.
pub fn output_size(canvas: &CanvasSettings) -> (res: OutputSize)
    ensures
        res == output_size_of(*canvas),
        res.width >= 1,
        res.height >= 1,
{
    let native: u32 = if canvas.export_width < 1 {
        1
    } else {
        canvas.export_width
    };
    let scale = Double::from_int(canvas.export_target_width as i64).over(Double::from_int(native as i64));
    let rows: u32 = Double::from_int(canvas.export_height as i64).times(scale).to_int(
        Rounding::Nearest,
        0,
        u32::MAX as i128,
    ) as u32;
    OutputSize {
        scale,
        width: if canvas.export_target_width < 1 {
            1
        } else {
            canvas.export_target_width
        },
        height: if rows < 1 {
            1
        } else {
            rows
        },
    }
}

/// A channel with the alpha taken out again; nothing is left of a channel
/// without alpha.
pub open spec fn straightened(c: u8, a: u8) -> u8 {
    if a == 0 {
        0
    } else {
        clip(
            whole(
                quot(prod(int_double(c as int), int_double(255)), int_double(a as int)),
                Rounding::Nearest,
            ),
            0,
            255,
        ) as u8
    }
}

fn straighten(c: u8, a: u8) -> (res: u8)
    ensures
        res == straightened(c, a),
{
    if a == 0 {
        0
    } else {
        Double::from_int(c as i64).times(Double::from_int(255)).over(Double::from_int(a as i64)).to_int(
            Rounding::Nearest,
            0,
            255,
        ) as u8
    }
}

/// The `c`th byte (red, green, blue, alpha) of a pixel whose drawn bytes (blue,
/// green, red, alpha) begin at `at`.
pub open spec fn exported_byte(data: Seq<u8>, at: int, c: int) -> u8 {
    if c == 3 {
        data[at + 3]
    } else {
        straightened(data[at + 2 - c], data[at + 3])
    }
}

/// The exported pixels of a drawn picture whose rows are `stride` bytes apart.
pub open spec fn exported_pixels(data: Seq<u8>, width: int, height: int, stride: int) -> Seq<u8> {
    Seq::new(
        (4 * width * height) as nat,
        |i: int|
            exported_byte(data, (i / (4 * width)) * stride + ((i % (4 * width)) / 4) * 4, i % 4),
    )
}

/// The pixels of a drawn picture, straight and in the order red, green, blue,
/// alpha, without padding.
pub fn surface_to_rgba_image(data: &[u8], width: u32, height: u32, stride: u32) -> (res: Vec<u8>)
    requires
        stride >= 4 * width,
        height > 0 ==> (height - 1) * stride + 4 * width <= data.len(),
        4 * width * height <= usize::MAX,
    ensures
        res@ == exported_pixels(data@, width as int, height as int, stride as int),
        res.len() == 4 * width * height,
{
    let ghost (w, h, st) = (width as int, height as int, stride as int);
    let ghost goal = exported_pixels(data@, w, h, st);
    let mut out: Vec<u8> = Vec::new();
    let mut y: u32 = 0;
    proof {
        assert(4 * w * 0 == 0);
        assert(4 * w * h >= 0) by (nonlinear_arith)
            requires
                w >= 0,
                h >= 0,
        ;
    }
    while y < height
        invariant
            y <= height,
            (w, h, st) == (width as int, height as int, stride as int),
            stride >= 4 * width,
            height > 0 ==> (height - 1) * stride + 4 * width <= data.len(),
            4 * width * height <= usize::MAX,
            goal == exported_pixels(data@, w, h, st),
            out.len() == 4 * w * y,
            forall|i: int| 0 <= i < out.len() ==> #[trigger] out[i] == goal[i],
            4 * w * h >= 0,
        decreases height - y,
    {
        let ghost row = y * st;
        let ghost start = 4 * w * y;
        proof {
            assert(0 <= row && row <= (h - 1) * st) by (nonlinear_arith)
                requires
                    row == y * st,
                    0 <= y <= h - 1,
                    st >= 0,
            ;
            assert(4 * w * (y + 1) == start + 4 * w && 4 * w * (y + 1) <= 4 * w * h && start >= 0) by (nonlinear_arith)
                requires
                    start == 4 * w * y,
                    0 <= y,
                    y + 1 <= h,
                    w >= 0,
            ;
        }
        let base: usize = (y as usize) * (stride as usize);
        let mut x: u32 = 0;
        while x < width
            invariant
                x <= width,
                y < height,
                (w, h, st) == (width as int, height as int, stride as int),
                row == y * st,
                base == row,
                row + 4 * w <= data.len(),
                start == 4 * w * y,
                start + 4 * w <= 4 * w * h,
                goal == exported_pixels(data@, w, h, st),
                goal.len() == 4 * w * h,
                out.len() == start + 4 * x,
                start >= 0,
                forall|i: int| 0 <= i < out.len() ==> #[trigger] out[i] == goal[i],
            decreases width - x,
        {
            let at: usize = base + 4 * (x as usize);
            let a: u8 = data[at + 3];
            let ghost before = out@;
            out.push(straighten(data[at + 2], a));
            out.push(straighten(data[at + 1], a));
            out.push(straighten(data[at], a));
            out.push(a);
            proof {
                assert forall|i: int| 0 <= i < out.len() implies #[trigger] out[i] == goal[i] by {
                    if i < before.len() {
                        assert(out[i] == before[i]);
                    } else {
                        let c = i - before.len();
                        lemma_pixel_index(w, y as int, x as int, c, i);
                    }
                }
            }
            x = x + 1;
        }
        y = y + 1;
    }
    proof {
        assert(out@ =~= goal);
    }
    out
}

pub proof fn lemma_pixel_index(w: int, y: int, x: int, c: int, i: int)
    requires
        0 <= x < w,
        0 <= y,
        0 <= c < 4,
        i == 4 * w * y + 4 * x + c,
    ensures
        i / (4 * w) == y,
        i % (4 * w) == 4 * x + c,
        (i % (4 * w)) / 4 == x,
        i % 4 == c,
{
    let row = 4 * w;
    assert(i == y * row + (4 * x + c)) by (nonlinear_arith)
        requires
            i == 4 * w * y + 4 * x + c,
            row == 4 * w,
    ;
    lemma_fundamental_div_mod_converse(i, row, y, 4 * x + c);
    lemma_fundamental_div_mod_converse(4 * x + c, 4, x, c);
    assert(i == (w * y + x) * 4 + c) by (nonlinear_arith)
        requires
            i == 4 * w * y + 4 * x + c,
    ;
    lemma_fundamental_div_mod_converse(i, 4, w * y + x, c);
}

/// What `n * d` divided by `d` gives, for integers that are doubles.
pub proof fn lemma_exact_quotient(n: int, d: int)
    requires
        0 <= n,
        0 < d,
        n * d <= 0x20_0000_0000_0000,
        n <= 0x20_0000_0000_0000,
        d <= 0x20_0000_0000_0000,
    ensures
        quot(int_double(n * d), int_double(d)) == int_double(n),
{
    assert(n * d >= 0) by (nonlinear_arith)
        requires
            n >= 0,
            d > 0,
    ;
    lemma_int_double_exact(n);
    lemma_int_double_exact(d);
    lemma_int_double_exact(n * d);
    lemma_pow2_pos(UNIT_EXP as nat);
    let u = one_unit() as int;
    let (a, b) = (int_double(n * d), int_double(d));
    lemma_mag_ordered(0, a.low());
    lemma_mag_ordered(0, b.low());
    lemma_mag_ordered(0, int_double(n).low());
    assert(d * u > 0 && ((n * d) * u) * u == (n * u) * (d * u) && (n * u) >= 0) by (nonlinear_arith)
        requires
            d > 0,
            u > 0,
            n >= 0,
    ;
    lemma_round_scale((n * u) as nat, 1, (d * u) as nat);
    lemma_round_exact(int_double(n).low());
    if n == 0 {
        assert(0 * d == 0);
        assert(0 * u == 0);
    } else {
        assert((n * d) * u > 0) by (nonlinear_arith)
            requires
                n > 0,
                d > 0,
                u > 0,
        ;
    }
    assert(quot(a, b) == signed(false, round_low((n * u) as nat, 1))) by {
        reveal(quot);
        lemma_round_zero(1);
    }
    assert(signed(false, int_double(n).low()) == int_double(n));
}

/// What the product of two integers gives, where it is a double.
pub proof fn lemma_exact_product(m: int, n: int)
    requires
        0 <= m <= 0x20_0000_0000_0000,
        0 <= n <= 0x20_0000_0000_0000,
        m * n <= 0x20_0000_0000_0000,
    ensures
        prod(int_double(m), int_double(n)) == int_double(m * n),
{
    assert(m * n >= 0) by (nonlinear_arith)
        requires
            m >= 0,
            n >= 0,
    ;
    lemma_int_double_exact(m);
    lemma_int_double_exact(n);
    lemma_int_double_exact(m * n);
    lemma_pow2_pos(UNIT_EXP as nat);
    let u = one_unit() as int;
    assert((m * u) * (n * u) == ((m * n) * u) * u && (m * n) * u >= 0) by (nonlinear_arith)
        requires
            m * n >= 0,
            u > 0,
    ;
    lemma_round_scale(((m * n) * u) as nat, 1, u as nat);
    lemma_round_exact(int_double(m * n).low());
    assert(prod(int_double(m), int_double(n)) == signed(false, round_low(((m * n) * u) as nat, 1))) by {
        reveal(prod);
    }
    assert(signed(false, int_double(m * n).low()) == int_double(m * n));
}

/// Rounding an integer gives the integer.
pub proof fn lemma_whole_of_int(n: int, mode: Rounding)
    requires
        0 <= n <= 0x20_0000_0000_0000,
    ensures
        whole(int_double(n), mode) == n,
{
    lemma_int_double_exact(n);
    lemma_pow2_pos(UNIT_EXP as nat);
    let u = one_unit() as int;
    assert(n * u == n * u + 0);
    lemma_fundamental_div_mod_converse(n * u, u, n, 0);
}

/// An opaque pixel keeps its colors.
pub proof fn law_opaque_pixels_are_kept(c: u8)
    ensures
        straightened(c, 255) == c,
{
    lemma_exact_product(c as int, 255);
    lemma_exact_quotient(c as int, 255);
    lemma_whole_of_int(c as int, Rounding::Nearest);
}

// ---------------------------------------------------------------------------
// Files
// ---------------------------------------------------------------------------

/// The error of the encoders.
#[verifier::external_type_specification]
#[verifier::external_body]
pub struct ExImageError(image::ImageError);

/// The file that the JPEG encoder makes of straight pixels.
pub uninterp spec fn jpeg_file(pixels: Seq<u8>, width: u32, height: u32, quality: u8) -> Seq<u8>;

/// The file that the lossless WebP encoder makes of straight pixels.
pub uninterp spec fn webp_file(pixels: Seq<u8>, width: u32, height: u32) -> Seq<u8>;

/// The files that the AVIF encoder may make of straight pixels at a speed and a
/// quality: one for each number of threads that it may find.
pub uninterp spec fn avif_files(pixels: Seq<u8>, width: u32, height: u32, speed: u8, quality: u8) -> Set<Seq<u8>>;

/// The box that every AVIF file begins with: it is 24 bytes long and says that
/// the file is an `avif`, which can be read as a `mif1` and as a `miaf`.
pub open spec fn avif_head() -> Seq<u8> {
    seq![
        0, 0, 0, 24, 0x66, 0x74, 0x79, 0x70, 0x61, 0x76, 0x69, 0x66, 0, 0, 0, 0, 0x6D, 0x69, 0x66, 0x31, 0x6D, 0x69,
        0x61, 0x66,
    ]
}

/// How fast an AVIF is encoded: from 1, the slowest, to 10.
pub const AVIF_SPEED: u8 = 4;

/// `image::codecs::jpeg::JpegEncoder::encode_image` into memory. It fails only
/// on sides that a JPEG cannot have: zero, or more than 16 bits hold. What it
/// writes depends on the pixels, the size and the quality alone; it goes by a
/// name, and is never empty.
#[verifier::external_body]
fn encode_jpeg(pixels: &Vec<u8>, width: u32, height: u32, quality: u8) -> (res: Result<Vec<u8>, image::ImageError>)
    requires
        pixels.len() == 4 * width * height,
    ensures
        res.is_ok() == (1 <= width && width <= 65535 && 1 <= height && height <= 65535),
        res.is_ok() ==> res.unwrap()@ == jpeg_file(pixels@, width, height, quality),
        res.is_ok() ==> res.unwrap().len() > 0,
{
    let mut file = Vec::new();
    let picture: image::ImageBuffer<image::Rgba<u8>, &[u8]> =
        image::ImageBuffer::from_raw(width, height, pixels.as_slice()).unwrap();
    image::codecs::jpeg::JpegEncoder::new_with_quality(&mut file, quality).encode_image(&picture)?;
    Ok(file)
}

/// `image::codecs::webp::WebPEncoder::encode`, lossless, into memory. It fails
/// only on sides that a WebP cannot have: zero, or more than 16384. What it
/// writes depends on the pixels and the size alone; it goes by a name, and is
/// never empty.
#[verifier::external_body]
fn encode_webp(pixels: &Vec<u8>, width: u32, height: u32) -> (res: Result<Vec<u8>, image::ImageError>)
    requires
        pixels.len() == 4 * width * height,
    ensures
        res.is_ok() == (1 <= width && width <= 16384 && 1 <= height && height <= 16384),
        res.is_ok() ==> res.unwrap()@ == webp_file(pixels@, width, height),
        res.is_ok() ==> res.unwrap().len() > 0,
{
    let mut file = Vec::new();
    image::codecs::webp::WebPEncoder::new_lossless(&mut file).encode(
        pixels,
        width,
        height,
        image::ExtendedColorType::Rgba8,
    )?;
    Ok(file)
}

/// `image::codecs::avif::AvifEncoder::write_image` into memory. How it cuts the
/// picture into tiles goes by the number of threads, so that one picture may
/// give several files. What it writes is one of those that belong to the
/// pixels, the size, the speed and the quality, and begins with the box of
/// every AVIF. Which of them it is, and when it fails, is left unsaid.
#[verifier::external_body]
fn encode_avif(pixels: &Vec<u8>, width: u32, height: u32, speed: u8, quality: u8) -> (res: Result<
    Vec<u8>,
    image::ImageError,
>)
    requires
        pixels.len() == 4 * width * height,
        width > 0,
        height > 0,
        1 <= speed <= 10,
        1 <= quality <= 100,
    ensures
        res.is_ok() ==> avif_files(pixels@, width, height, speed, quality).contains(res.unwrap()@),
        res.is_ok() ==> avif_head().is_prefix_of(res.unwrap()@),
{
    let mut file = Vec::new();
    let encoder = image::codecs::avif::AvifEncoder::new_with_speed_quality(&mut file, speed, quality);
    image::ImageEncoder::write_image(encoder, pixels, width, height, image::ExtendedColorType::Rgba8)?;
    Ok(file)
}

/// The quality that an AVIF is encoded with: one from 1 to 100.
pub open spec fn quality_of_avif(quality: u8) -> u8 {
    clip(quality as int, 1, 100) as u8
}

/// The quality that an AVIF is encoded with: one from 1 to 100.
pub fn avif_quality(quality: u8) -> (res: u8)
    ensures
        res == quality_of_avif(quality),
{
    if quality < 1 {
        1
    } else if quality > 100 {
        100
    } else {
        quality
    }
}

/// Why a picture could not be encoded.
#[derive(Debug)]
pub enum ExportError {
    Encode(image::ImageError),
}

/// The file of straight pixels in a format, which is never empty. A PNG is none
/// of these encoders' business: the drawing library writes it.
pub fn encode(pixels: &Vec<u8>, width: u32, height: u32, format: ExportFormat, quality: u8) -> (res: Result<
    Option<Vec<u8>>,
    ExportError,
>)
    requires
        pixels.len() == 4 * width * height,
        width > 0,
        height > 0,
    ensures
        match format {
            ExportFormat::Png => res matches Ok(None),
            ExportFormat::Jpeg => {
                &&& res is Ok <==> width <= 65535 && height <= 65535
                &&& res matches Ok(file) ==> (file matches Some(f) && f@ == jpeg_file(
                    pixels@,
                    width,
                    height,
                    quality,
                ))
            },
            ExportFormat::WebP => {
                &&& res is Ok <==> width <= 16384 && height <= 16384
                &&& res matches Ok(file) ==> (file matches Some(f) && f@ == webp_file(pixels@, width, height))
            },
            ExportFormat::Avif => res matches Ok(file) ==> (file matches Some(f) && avif_files(
                pixels@,
                width,
                height,
                AVIF_SPEED,
                quality_of_avif(quality),
            ).contains(f@) && avif_head().is_prefix_of(f@)),
        },
        res matches Ok(Some(f)) ==> f.len() > 0,
{
    match format {
        ExportFormat::Png => Ok(None),
        ExportFormat::Jpeg => encoded(encode_jpeg(pixels, width, height, quality)),
        ExportFormat::WebP => encoded(encode_webp(pixels, width, height)),
        ExportFormat::Avif => encoded(encode_avif(pixels, width, height, AVIF_SPEED, avif_quality(quality))),
    }
}

/// An encoder's result as an export's.
pub fn encoded(result: Result<Vec<u8>, image::ImageError>) -> (res: Result<Option<Vec<u8>>, ExportError>)
    ensures
        match result {
            Ok(file) => res == Ok::<Option<Vec<u8>>, ExportError>(Some(file)),
            Err(e) => res == Err::<Option<Vec<u8>>, ExportError>(ExportError::Encode(e)),
        },
{
    match result {
        Ok(file) => Ok(Some(file)),
        Err(e) => Err(ExportError::Encode(e)),
    }
}

} // verus!
