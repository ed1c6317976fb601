//! Decoded images: premultiplied pixels in the order blue, green, red, alpha.
use crate::double::{prod, quot, Double};
use crate::export::{
    law_opaque_pixels_are_kept, lemma_exact_product, lemma_exact_quotient, lemma_whole_of_int, straightened,
};
use crate::whole::{clip, int_double, whole, Rounding};
use vstd::arithmetic::div_mod::*;
use vstd::arithmetic::mul::*;
use vstd::prelude::*;

verus! {

/// Premultiplied pixels without padding between the rows.
#[derive(Debug, PartialEq)]
pub struct DecodedImage {
    pub bytes: Vec<u8>,
    pub width: i32,
    pub height: i32,
}

/// A channel multiplied by the alpha.
pub open spec fn premultiplied(c: u8, a: u8) -> u8 {
    clip(
        whole(
            prod(int_double(c as int), quot(int_double(a as int), int_double(255))),
            Rounding::Nearest,
        ),
        0,
        255,
    ) as u8
}

fn premultiply(c: u8, a: u8) -> (res: u8)
    ensures
        res == premultiplied(c, a),
{
    Double::from_int(c as i64).times(Double::from_int(a as i64).over(Double::from_int(255))).to_int(
        Rounding::Nearest,
        0,
        255,
    ) as u8
}

/// How the pixels of a source image lie in its bytes: `channels` bytes each
/// (red, green, blue and, with alpha, alpha first), rows `stride` bytes apart.
#[derive(Clone, Copy, Debug, PartialEq, Eq, Structural)]
pub struct SourceFormat {
    pub width: i32,
    pub height: i32,
    pub channels: i32,
    pub stride: i32,
    pub has_alpha: bool,
}

/// Whether bytes hold an image of a format.
pub open spec fn holds_source(len: int, f: SourceFormat) -> bool {
    &&& f.width > 0
    &&& f.height > 0
    &&& f.channels >= if f.has_alpha {
        4int
    } else {
        3
    }
    &&& f.stride >= f.width * f.channels
    &&& (f.height - 1) * f.stride + f.width * f.channels <= len
    &&& 4 * f.width * f.height <= i32::MAX
}

/// The `c`th byte (blue, green, red, alpha) of a pixel whose source bytes begin
/// at `at`.
pub open spec fn decoded_byte(src: Seq<u8>, at: int, has_alpha: bool, c: int) -> u8 {
    let a = if has_alpha {
        src[at + 3]
    } else {
        255
    };
    if c == 3 {
        a
    } else {
        premultiplied(src[at + 2 - c], a)
    }
}

/// The premultiplied pixels of an image.
pub open spec fn decoded_pixels(src: Seq<u8>, f: SourceFormat) -> Seq<u8> {
    Seq::new(
        (4 * f.width * f.height) as nat,
        |i: int|
            decoded_byte(
                src,
                (i / (4 * f.width)) * f.stride + ((i % (4 * f.width)) / 4) * f.channels,
                f.has_alpha,
                i % 4,
            ),
    )
}

proof fn lemma_pixel_index(w: int, y: int, x: int, c: int, i: int)
    requires
        0 <= x < w,
        0 <= y,
        0 <= c < 4,
        i == 4 * w * y + 4 * x + c,
    ensures
        i / (4 * w) == y,
        i % (4 * w) == 4 * x + c,
        (i % (4 * w)) / 4 == x,
        i % 4 == c,
{
    let row = 4 * w;
    assert(i == y * row + (4 * x + c)) by (nonlinear_arith)
        requires
            i == 4 * w * y + 4 * x + c,
            row == 4 * w,
    ;
    lemma_fundamental_div_mod_converse(i, row, y, 4 * x + c);
    lemma_fundamental_div_mod_converse(4 * x + c, 4, x, c);
    assert(i == (w * y + x) * 4 + c) by (nonlinear_arith)
        requires
            i == 4 * w * y + 4 * x + c,
    ;
    lemma_fundamental_div_mod_converse(i, 4, w * y + x, c);
}

/// Converts straight source pixels into premultiplied ones.
pub fn decode_image(src: &[u8], format: SourceFormat) -> (res: DecodedImage)
    requires
        holds_source(src.len() as int, format),
    ensures
        res.width == format.width,
        res.height == format.height,
        res.bytes@ == decoded_pixels(src@, format),
{
    let ghost (w, h, st, n) = (
        format.width as int,
        format.height as int,
        format.stride as int,
        format.channels as int,
    );
    let ghost goal = decoded_pixels(src@, format);
    let mut out: Vec<u8> = Vec::new();
    let mut y: i32 = 0;
    proof {
        assert(4 * w * 0 == 0);
        assert(4 * w * h >= 0) by (nonlinear_arith)
            requires
                w >= 0,
                h >= 0,
        ;
    }
    while y < format.height
        invariant
            0 <= y <= format.height,
            (w, h, st, n) == (
                format.width as int,
                format.height as int,
                format.stride as int,
                format.channels as int,
            ),
            holds_source(src.len() as int, format),
            goal == decoded_pixels(src@, format),
            goal.len() == 4 * w * h,
            out.len() == 4 * w * y,
            forall|i: int| 0 <= i < out.len() ==> #[trigger] out[i] == goal[i],
        decreases format.height - y,
    {
        let ghost row = y * st;
        let ghost start = 4 * w * y;
        proof {
            assert(0 <= row && row <= (h - 1) * st && st >= 0 && row + w * n <= src.len()) by (nonlinear_arith)
                requires
                    row == y * st,
                    0 <= y <= h - 1,
                    st >= w * n,
                    w > 0,
                    n > 0,
                    (h - 1) * st + w * n <= src.len(),
            ;
            assert(4 * w * (y + 1) == start + 4 * w && 4 * w * (y + 1) <= 4 * w * h && start >= 0) by (nonlinear_arith)
                requires
                    start == 4 * w * y,
                    0 <= y,
                    y + 1 <= h,
                    w >= 0,
            ;
        }
        let base: usize = (y as usize) * (format.stride as usize);
        let mut x: i32 = 0;
        while x < format.width
            invariant
                0 <= x <= format.width,
                0 <= y < format.height,
                (w, h, st, n) == (
                    format.width as int,
                    format.height as int,
                    format.stride as int,
                    format.channels as int,
                ),
                holds_source(src.len() as int, format),
                row == y * st,
                base == row,
                row + w * n <= src.len(),
                start == 4 * w * y,
                start >= 0,
                start + 4 * w <= 4 * w * h,
                goal == decoded_pixels(src@, format),
                goal.len() == 4 * w * h,
                out.len() == start + 4 * x,
                forall|i: int| 0 <= i < out.len() ==> #[trigger] out[i] == goal[i],
            decreases format.width - x,
        {
            proof {
                assert(0 <= x * n && x * n + n <= w * n) by (nonlinear_arith)
                    requires
                        0 <= x,
                        x + 1 <= w,
                        n > 0,
                ;
            }
            let at: usize = base + (x as usize) * (format.channels as usize);
            let a: u8 = if format.has_alpha {
                src[at + 3]
            } else {
                255
            };
            let ghost before = out@;
            out.push(premultiply(src[at + 2], a));
            out.push(premultiply(src[at + 1], a));
            out.push(premultiply(src[at], a));
            out.push(a);
            proof {
                assert forall|i: int| 0 <= i < out.len() implies #[trigger] out[i] == goal[i] by {
                    if i < before.len() {
                        assert(out[i] == before[i]);
                    } else {
                        let c = i - before.len();
                        lemma_pixel_index(w, y as int, x as int, c, i);
                    }
                }
            }
            x = x + 1;
        }
        y = y + 1;
    }
    proof {
        assert(out@ =~= goal);
    }
    DecodedImage { bytes: out, width: format.width, height: format.height }
}

/// Bytes of rows `to` bytes apart, taken from rows `from` bytes apart: of each
/// row its first `used` bytes, and zeros behind them.
pub open spec fn respaced(src: Seq<u8>, used: int, from: int, to: int, height: int) -> Seq<u8> {
    Seq::new(
        (to * height) as nat,
        |i: int|
            if i % to < used {
                src[(i / to) * from + i % to]
            } else {
                0
            },
    )
}

/// Moves rows from one distance to another.
pub fn respace_rows(src: &[u8], used: usize, from: usize, to: usize, height: usize) -> (res: Vec<u8>)
    requires
        used <= from,
        used <= to,
        height > 0 ==> (height - 1) * from + used <= src.len(),
        to * height <= usize::MAX,
    ensures
        res@ == respaced(src@, used as int, from as int, to as int, height as int),
{
    let ghost (u, f, t, h) = (used as int, from as int, to as int, height as int);
    let ghost goal = respaced(src@, u, f, t, h);
    let mut out: Vec<u8> = Vec::new();
    let mut y: usize = 0;
    proof {
        assert(t * 0 == 0);
        assert(t * h >= 0) by (nonlinear_arith)
            requires
                t >= 0,
                h >= 0,
        ;
    }
    while y < height
        invariant
            y <= height,
            (u, f, t, h) == (used as int, from as int, to as int, height as int),
            used <= from,
            used <= to,
            height > 0 ==> (height - 1) * from + used <= src.len(),
            goal == respaced(src@, u, f, t, h),
            goal.len() == t * h,
            out.len() == t * y,
            forall|i: int| 0 <= i < out.len() ==> #[trigger] out[i] == goal[i],
        decreases height - y,
    {
        let ghost row = y * f;
        let ghost start = t * y;
        proof {
            assert(0 <= row && row + u <= src.len()) by (nonlinear_arith)
                requires
                    row == y * f,
                    0 <= y <= h - 1,
                    f >= 0,
                    (h - 1) * f + u <= src.len(),
            ;
            assert(t * (y + 1) == start + t && start + t <= t * h && start >= 0) by (nonlinear_arith)
                requires
                    start == t * y,
                    0 <= y,
                    y + 1 <= h,
                    t >= 0,
            ;
        }
        let base: usize = y * from;
        let mut x: usize = 0;
        while x < to
            invariant
                x <= to,
                (u, f, t, h) == (used as int, from as int, to as int, height as int),
                row == y * f,
                base == row,
                row + u <= src.len(),
                start == t * y,
                start >= 0,
                start + t <= t * h,
                goal == respaced(src@, u, f, t, h),
                goal.len() == t * h,
                out.len() == start + x,
                forall|i: int| 0 <= i < out.len() ==> #[trigger] out[i] == goal[i],
            decreases to - x,
        {
            let ghost before = out@;
            if x < used {
                out.push(src[base + x]);
            } else {
                out.push(0);
            }
            proof {
                let i = start + x;
                assert(i == y * t + x) by (nonlinear_arith)
                    requires
                        i == start + x,
                        start == t * y,
                ;
                lemma_fundamental_div_mod_converse(i, t, y as int, x as int);
                assert forall|k: int| 0 <= k < out.len() implies #[trigger] out[k] == goal[k] by {
                    if k < before.len() {
                        assert(out[k] == before[k]);
                    }
                }
            }
            x = x + 1;
        }
        y = y + 1;
    }
    proof {
        assert(out@ =~= goal);
    }
    out
}

/// Takes the padding out of rows of premultiplied pixels `stride` bytes apart.
pub fn decoded_image_from_texture(bytes: &[u8], width: i32, height: i32, stride: usize) -> (res: DecodedImage)
    requires
        width > 0,
        height > 0,
        stride >= 4 * width,
        (height - 1) * stride + 4 * width <= bytes.len(),
        4 * width * height <= i32::MAX,
    ensures
        res.width == width,
        res.height == height,
        res.bytes@ == respaced(bytes@, 4 * width, stride as int, 4 * width, height as int),
{
    let row: usize = 4 * (width as usize);
    DecodedImage { bytes: respace_rows(bytes, row, stride, row, height as usize), width, height }
}

/// Lays pixels out in rows `stride` bytes apart, as a drawing surface wants
/// them.
pub fn surface_from_decoded(image: &DecodedImage, stride: usize) -> (res: Vec<u8>)
    requires
        image.width > 0,
        image.height > 0,
        stride >= 4 * image.width,
        4 * image.width * image.height <= image.bytes.len(),
        stride * image.height <= usize::MAX,
    ensures
        res@ == respaced(image.bytes@, 4 * image.width, 4 * image.width, stride as int, image.height as int),
{
    let row: usize = 4 * (image.width as usize);
    proof {
        let (w, h) = (image.width as int, image.height as int);
        assert((h - 1) * (4 * w) + 4 * w == 4 * w * h) by (nonlinear_arith);
    }
    respace_rows(image.bytes.as_slice(), row, row, stride, image.height as usize)
}

/// An opaque pixel keeps its colors on the way in, and on the way out again.
pub proof fn law_opaque_pixels_survive(c: u8)
    ensures
        premultiplied(c, 255) == c,
        straightened(premultiplied(c, 255), 255) == c,
{
    lemma_exact_quotient(1, 255);
    lemma_exact_product(c as int, 1);
    lemma_whole_of_int(c as int, Rounding::Nearest);
    law_opaque_pixels_are_kept(c);
}

/// Spreading rows out and closing them up again changes nothing.
pub proof fn law_respacing_round_trips(src: Seq<u8>, used: int, stride: int, height: int)
    requires
        0 < used <= stride,
        height >= 0,
        src.len() == used * height,
    ensures
        respaced(respaced(src, used, used, stride, height), used, stride, used, height) == src,
{
    let wide = respaced(src, used, used, stride, height);
    let back = respaced(wide, used, stride, used, height);
    assert forall|i: int| 0 <= i < src.len() implies #[trigger] back[i] == src[i] by {
        let (y, x) = (i / used, i % used);
        lemma_fundamental_div_mod(i, used);
        lemma_mod_bound(i, used);
        lemma_div_pos_is_pos(i, used);
        let j = y * stride + x;
        assert(y < height) by (nonlinear_arith)
            requires
                i == used * y + x,
                x >= 0,
                i < used * height,
                used > 0,
        ;
        assert(0 <= j < stride * height) by (nonlinear_arith)
            requires
                j == y * stride + x,
                0 <= y <= height - 1,
                0 <= x < stride,
        ;
        lemma_fundamental_div_mod_converse(j, stride, y, x);
        assert(y * used + x == i) by (nonlinear_arith)
            requires
                i == used * y + x,
        ;
        assert(wide[j] == src[y * used + x]);
    }
    assert(used * height >= 0) by (nonlinear_arith)
        requires
            used > 0,
            height >= 0,
    ;
    assert(back =~= src);
}

} // verus!
