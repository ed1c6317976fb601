//! A box blur that approximates a Gaussian one, on a buffer of pixels of four
//! bytes. Reads beyond an edge find the edge pixel again, so that a shape that
//! touches the edge does not darken there.
use crate::double::Double;
use crate::whole::{clip, whole, Rounding};
use vstd::arithmetic::div_mod::*;
use vstd::arithmetic::mul::*;
use vstd::prelude::*;

verus! {

/// How many times each direction is blurred.
pub const PASSES: usize = 3;

/// The byte at position `p` of a line of `n` bytes, `step` apart from `base`
/// on; beyond the ends, the byte at the nearer end.
pub open spec fn line_byte(data: Seq<u8>, base: int, step: int, n: int, p: int) -> int {
    data[base + clip(p, 0, n - 1) * step] as int
}

/// The sum of the bytes at the positions from `lo` up to, not including, `hi`.
pub open spec fn line_sum(data: Seq<u8>, base: int, step: int, n: int, lo: int, hi: int) -> int
    decreases hi - lo,
{
    if hi <= lo {
        0
    } else {
        line_sum(data, base, step, n, lo, hi - 1) + line_byte(data, base, step, n, hi - 1)
    }
}

/// The mean of the bytes within `r` positions of `p`, rounded to the nearest.
pub open spec fn line_mean(data: Seq<u8>, base: int, step: int, n: int, r: int, p: int) -> u8 {
    ((line_sum(data, base, step, n, p - r, p + r + 1) + r) / (2 * r + 1)) as u8
}

/// Whether the byte at `i` belongs to a pixel, not to a row's padding.
pub open spec fn in_picture(i: int, width: int, height: int, stride: int) -> bool {
    i / stride < height && i % stride < 4 * width
}

/// The buffer after one pass along the rows.
pub open spec fn blurred_rows(data: Seq<u8>, width: int, height: int, stride: int, r: int) -> Seq<u8> {
    Seq::new(
        data.len(),
        |i: int|
            if in_picture(i, width, height, stride) {
                let off = i % stride;
                line_mean(data, (i / stride) * stride + off % 4, 4, width, r, off / 4)
            } else {
                data[i]
            },
    )
}

/// The buffer after one pass along the columns.
pub open spec fn blurred_columns(data: Seq<u8>, width: int, height: int, stride: int, r: int) -> Seq<u8> {
    Seq::new(
        data.len(),
        |i: int|
            if in_picture(i, width, height, stride) {
                line_mean(data, i % stride, stride, height, r, i / stride)
            } else {
                data[i]
            },
    )
}

/// The buffer after a number of passes in both directions.
pub open spec fn blurred(data: Seq<u8>, width: int, height: int, stride: int, r: int, passes: nat) -> Seq<u8>
    decreases passes,
{
    if passes == 0 {
        data
    } else {
        let before = blurred(data, width, height, stride, r, (passes - 1) as nat);
        blurred_columns(blurred_rows(before, width, height, stride, r), width, height, stride, r)
    }
}

/// Whether a buffer holds a picture: rows of `stride` bytes, the last one as
/// long as its pixels at least.
pub open spec fn holds_picture(len: int, width: int, height: int, stride: int) -> bool {
    &&& width > 0
    &&& height > 0
    &&& stride >= 4 * width
    &&& (height - 1) * stride + 4 * width <= len
}

proof fn lemma_sum_bounds(data: Seq<u8>, base: int, step: int, n: int, lo: int, hi: int)
    requires
        lo <= hi,
    ensures
        0 <= line_sum(data, base, step, n, lo, hi) <= 255 * (hi - lo),
    decreases hi - lo,
{
    if lo < hi {
        lemma_sum_bounds(data, base, step, n, lo, hi - 1);
    }
}

proof fn lemma_sum_front(data: Seq<u8>, base: int, step: int, n: int, lo: int, hi: int)
    requires
        lo < hi,
    ensures
        line_sum(data, base, step, n, lo, hi) == line_byte(data, base, step, n, lo) + line_sum(
            data,
            base,
            step,
            n,
            lo + 1,
            hi,
        ),
    decreases hi - lo,
{
    if lo + 1 < hi {
        lemma_sum_front(data, base, step, n, lo, hi - 1);
    } else {
        assert(line_sum(data, base, step, n, lo, lo) == 0);
    }
}

/// Sums agree on buffers that agree on the line.
proof fn lemma_sum_same(a: Seq<u8>, b: Seq<u8>, base: int, step: int, n: int, lo: int, hi: int)
    requires
        n > 0,
        forall|p: int| 0 <= p < n ==> a[#[trigger] line_index(base, step, p)] == b[line_index(base, step, p)],
    ensures
        line_sum(a, base, step, n, lo, hi) == line_sum(b, base, step, n, lo, hi),
    decreases hi - lo,
{
    if lo < hi {
        lemma_sum_same(a, b, base, step, n, lo, hi - 1);
        let p = clip(hi - 1, 0, n - 1);
        assert(line_index(base, step, p) == base + p * step);
    }
}

/// Where position `p` of a line lies in the buffer.
pub open spec fn line_index(base: int, step: int, p: int) -> int {
    base + p * step
}

/// Whether the byte at `i` lies on a line.
pub open spec fn on_line(base: int, step: int, n: int, i: int) -> bool {
    exists|p: int| 0 <= p < n && i == #[trigger] line_index(base, step, p)
}

proof fn lemma_line_fits(len: int, base: int, step: int, n: int, p: int)
    requires
        0 <= base,
        0 < step,
        0 <= p < n,
        base + (n - 1) * step < len,
    ensures
        0 <= line_index(base, step, p) < len,
{
    assert(0 <= p * step <= (n - 1) * step) by (nonlinear_arith)
        requires
            0 <= p <= n - 1,
            0 < step,
    ;
}

/// The byte at a position of the line, or at the nearer end.
fn read_line(data: &Vec<u8>, base: usize, step: usize, n: usize, p: i64) -> (res: i64)
    requires
        0 < step,
        0 < n <= 0x8000_0000,
        base + (n - 1) * step < data.len(),
    ensures
        res == line_byte(data@, base as int, step as int, n as int, p as int),
        0 <= res <= 255,
{
    let at: usize = if p < 0 {
        0
    } else if p as u64 >= n as u64 {
        n - 1
    } else {
        p as usize
    };
    proof {
        lemma_line_fits(data.len() as int, base as int, step as int, n as int, at as int);
        assert(0 <= at * step) by (nonlinear_arith)
            requires
                0 <= at,
                0 < step,
        ;
    }
    data[base + at * step] as i64
}

/// Replaces each byte of a line by the mean around it.
fn blur_line(data: &mut Vec<u8>, base: usize, step: usize, n: usize, radius: i32)
    requires
        0 < step,
        0 < n <= 0x8000_0000,
        radius >= 0,
        base + (n - 1) * step < old(data).len(),
    ensures
        final(data).len() == old(data).len(),
        forall|p: int|
            0 <= p < n ==> final(data)[#[trigger] line_index(base as int, step as int, p)] == line_mean(
                old(data)@,
                base as int,
                step as int,
                n as int,
                radius as int,
                p,
            ),
        forall|i: int|
            0 <= i < old(data).len() && !on_line(base as int, step as int, n as int, i) ==> #[trigger] final(data)[i]
                == old(data)[i],
{
    let r: i64 = radius as i64;
    let window: i64 = 2 * r + 1;
    let ghost line = data@;
    let ghost (b, s, m) = (base as int, step as int, n as int);
    let mut sum: i64 = 0;
    let mut dx: i64 = -r;
    while dx <= r
        invariant
            r == radius,
            radius >= 0,
            -r <= dx <= r + 1,
            0 < step,
            0 < n <= 0x8000_0000,
            base + (n - 1) * step < data.len(),
            line == data@,
            (b, s, m) == (base as int, step as int, n as int),
            sum == line_sum(line, b, s, m, -r as int, dx as int),
            0 <= sum <= 255 * (dx + r),
        decreases r + 1 - dx,
    {
        let v: i64 = read_line(data, base, step, n, dx);
        sum = sum + v;
        dx = dx + 1;
    }
    let mut means: Vec<u8> = Vec::new();
    let mut p: usize = 0;
    while p < n
        invariant
            r == radius,
            radius >= 0,
            window == 2 * r + 1,
            p <= n,
            0 < step,
            0 < n <= 0x8000_0000,
            base + (n - 1) * step < data.len(),
            line == data@,
            (b, s, m) == (base as int, step as int, n as int),
            sum == line_sum(line, b, s, m, p - r, p + r + 1),
            means.len() == p,
            forall|k: int| 0 <= k < p ==> (#[trigger] means[k]) == line_mean(line, b, s, m, r as int, k),
        decreases n - p,
    {
        proof {
            lemma_sum_bounds(line, b, s, m, p - r, p + r + 1);
            lemma_sum_front(line, b, s, m, p - r, p + r + 2);
            lemma_sum_bounds(line, b, s, m, p - r + 1, p + r + 2);
            assert(0 <= (sum + r) / (window as int) <= 255) by (nonlinear_arith)
                requires
                    0 <= sum <= 255 * window,
                    window == 2 * r + 1,
                    r >= 0,
            ;
        }
        means.push(((sum + r) / window) as u8);
        let entering: i64 = read_line(data, base, step, n, p as i64 + r + 1);
        let leaving: i64 = read_line(data, base, step, n, p as i64 - r);
        sum = sum + entering - leaving;
        p = p + 1;
    }
    let mut q: usize = 0;
    while q < n
        invariant
            q <= n,
            0 < step,
            base + (n - 1) * step < data.len(),
            data.len() == line.len(),
            (b, s, m) == (base as int, step as int, n as int),
            means.len() == n,
            forall|k: int| 0 <= k < q ==> data[#[trigger] line_index(b, s, k)] == means[k],
            forall|i: int| 0 <= i < line.len() && !on_line(b, s, q as int, i) ==> #[trigger] data[i] == line[i],
        decreases n - q,
    {
        proof {
            lemma_line_fits(data.len() as int, b, s, m, q as int);
            assert(0 <= q * step) by (nonlinear_arith)
                requires
                    0 <= q,
                    0 < step,
            ;
        }
        let ghost before = data@;
        let at: usize = base + q * step;
        data[at] = means[q];
        proof {
            assert(at == line_index(b, s, q as int));
            assert forall|k: int| 0 <= k < q + 1 implies data[#[trigger] line_index(b, s, k)] == means[k] by {
                if k < q {
                    assert(line_index(b, s, k) != at) by (nonlinear_arith)
                        requires
                            line_index(b, s, k) == b + k * s,
                            at == b + q * s,
                            k < q,
                            s > 0,
                    ;
                    lemma_line_fits(data.len() as int, b, s, m, k);
                }
            }
            assert forall|i: int| 0 <= i < line.len() && !on_line(b, s, q + 1, i) implies #[trigger] data[i] == line[i] by {
                if i == at {
                    assert(i == line_index(b, s, q as int));
                    assert(false);
                }
                if on_line(b, s, q as int, i) {
                    let k = choose|k: int| 0 <= k < q && i == #[trigger] line_index(b, s, k);
                    assert(0 <= k < q + 1 && i == line_index(b, s, k));
                    assert(false);
                }
            }
        }
        q = q + 1;
    }
}

/// One pass along the rows.
pub fn box_blur_horizontal(data: &mut Vec<u8>, width: i32, height: i32, stride: i32, radius: i32)
    requires
        radius >= 0,
        holds_picture(old(data).len() as int, width as int, height as int, stride as int),
    ensures
        final(data)@ == blurred_rows(old(data)@, width as int, height as int, stride as int, radius as int),
{
    let ghost start = data@;
    let ghost (w, h, st, r) = (width as int, height as int, stride as int, radius as int);
    let ghost goal = blurred_rows(start, w, h, st, r);
    let mut y: i32 = 0;
    while y < height
        invariant
            0 <= y <= height,
            radius >= 0,
            holds_picture(start.len() as int, w, h, st),
            (w, h, st, r) == (width as int, height as int, stride as int, radius as int),
            goal == blurred_rows(start, w, h, st, r),
            data.len() == start.len(),
            forall|i: int|
                0 <= i < start.len() ==> #[trigger] data[i] == if i / st < y {
                    goal[i]
                } else {
                    start[i]
                },
        decreases height - y,
    {
        let mut channel: usize = 0;
        while channel < 4
            invariant
                0 <= y < height,
                radius >= 0,
                channel <= 4,
                holds_picture(start.len() as int, w, h, st),
                (w, h, st, r) == (width as int, height as int, stride as int, radius as int),
                goal == blurred_rows(start, w, h, st, r),
                data.len() == start.len(),
                forall|i: int|
                    0 <= i < start.len() ==> #[trigger] data[i] == if i / st < y || (i / st == y && (i % st) % 4
                        < channel) {
                        goal[i]
                    } else {
                        start[i]
                    },
            decreases 4 - channel,
        {
            let ghost before = data@;
            let ghost base = y * st + channel;
            proof {
                assert(0 <= y * st && y * st <= (h - 1) * st) by (nonlinear_arith)
                    requires
                        0 <= y <= h - 1,
                        st > 0,
                ;
            }
            let at: usize = (y as usize) * (stride as usize) + channel;
            blur_line(data, at, 4, width as usize, radius);
            proof {
                // The line's bytes had not been touched before.
                assert forall|p: int| 0 <= p < w implies before[#[trigger] line_index(base, 4, p)] == start[line_index(
                    base,
                    4,
                    p,
                )] by {
                    lemma_row_line(y as int, channel as int, p, w, h, st, start.len() as int);
                }
                assert forall|i: int| 0 <= i < start.len() implies #[trigger] data[i] == if i / st < y || (i / st == y && (i
                    % st) % 4 < channel + 1) {
                    goal[i]
                } else {
                    start[i]
                } by {
                    lemma_fundamental_div_mod(i, st);
                    lemma_fundamental_div_mod(i % st, 4);
                    lemma_mod_bound(i, st);
                    let p = (i % st) / 4;
                    if i / st == y && (i % st) % 4 == channel && i % st < 4 * w {
                        assert(i == line_index(base, 4, p)) by (nonlinear_arith)
                            requires
                                i == st * y + (4 * p + channel),
                                base == y * st + channel,
                        ;
                        assert(0 <= p < w);
                        assert(on_line(base, 4, w, i));
                        lemma_sum_same(before, start, base, 4, w, p - r, p + r + 1);
                        assert(data[line_index(base, 4, p)] == line_mean(before, base, 4, w, r, p));
                        assert(in_picture(i, w, h, st));
                        assert(goal[i] == line_mean(start, base, 4, w, r, p));
                    } else {
                        if on_line(base, 4, w, i) {
                            let k = choose|k: int| 0 <= k < w && i == #[trigger] line_index(base, 4, k);
                            lemma_row_line(y as int, channel as int, k, w, h, st, start.len() as int);
                            assert(false);
                        }
                        assert(data[i] == before[i]);
                        if i / st == y && (i % st) % 4 == channel {
                            assert(goal[i] == start[i]);
                        }
                    }
                }
            }
            channel = channel + 1;
        }
        proof {
            assert forall|i: int| 0 <= i < start.len() implies #[trigger] data[i] == if i / st < y + 1 {
                goal[i]
            } else {
                start[i]
            } by {
                lemma_mod_bound(i % st, 4);
            }
        }
        y = y + 1;
    }
    proof {
        assert forall|i: int| 0 <= i < start.len() implies #[trigger] data[i] == goal[i] by {
            if i / st >= h {
                assert(!in_picture(i, w, h, st));
            }
        }
        assert(data@ =~= goal);
    }
}

/// A byte of a row's line, by its row and its offset in the row.
proof fn lemma_row_line(y: int, channel: int, p: int, w: int, h: int, st: int, len: int)
    requires
        0 <= y < h,
        0 <= channel < 4,
        0 <= p < w,
        holds_picture(len, w, h, st),
    ensures
        ({
            let i = line_index(y * st + channel, 4, p);
            &&& 0 <= i < len
            &&& i / st == y
            &&& i % st == channel + 4 * p
            &&& (i % st) % 4 == channel
        }),
{
    let i = line_index(y * st + channel, 4, p);
    let off = channel + 4 * p;
    assert(i == y * st + off);
    assert(0 <= y * st <= (h - 1) * st) by (nonlinear_arith)
        requires
            0 <= y <= h - 1,
            st > 0,
    ;
    lemma_fundamental_div_mod_converse(i, st, y, off);
    lemma_fundamental_div_mod_converse(off, 4, p, channel);
}

/// A byte of a column's line, by its row and its offset in the row.
proof fn lemma_column_line(off: int, p: int, w: int, h: int, st: int, len: int)
    requires
        0 <= off < 4 * w,
        0 <= p < h,
        holds_picture(len, w, h, st),
    ensures
        ({
            let i = line_index(off, st, p);
            &&& 0 <= i < len
            &&& i / st == p
            &&& i % st == off
        }),
{
    let i = line_index(off, st, p);
    assert(0 <= p * st <= (h - 1) * st) by (nonlinear_arith)
        requires
            0 <= p <= h - 1,
            st > 0,
    ;
    assert(i == p * st + off);
    lemma_fundamental_div_mod_converse(i, st, p, off);
}

/// One pass along the columns.
pub fn box_blur_vertical(data: &mut Vec<u8>, width: i32, height: i32, stride: i32, radius: i32)
    requires
        radius >= 0,
        holds_picture(old(data).len() as int, width as int, height as int, stride as int),
    ensures
        final(data)@ == blurred_columns(old(data)@, width as int, height as int, stride as int, radius as int),
{
    let ghost start = data@;
    let ghost (w, h, st, r) = (width as int, height as int, stride as int, radius as int);
    let ghost goal = blurred_columns(start, w, h, st, r);
    let columns: usize = 4 * (width as usize);
    let mut x: usize = 0;
    while x < columns
        invariant
            columns == 4 * w,
            x <= columns,
            radius >= 0,
            holds_picture(start.len() as int, w, h, st),
            (w, h, st, r) == (width as int, height as int, stride as int, radius as int),
            goal == blurred_columns(start, w, h, st, r),
            data.len() == start.len(),
            forall|i: int|
                0 <= i < start.len() ==> #[trigger] data[i] == if i % st < x {
                    goal[i]
                } else {
                    start[i]
                },
        decreases columns - x,
    {
        let ghost before = data@;
        proof {
            lemma_column_line(x as int, h - 1, w, h, st, start.len() as int);
        }
        blur_line(data, x, stride as usize, height as usize, radius);
        proof {
            assert forall|p: int| 0 <= p < h implies before[#[trigger] line_index(x as int, st, p)] == start[line_index(
                x as int,
                st,
                p,
            )] by {
                lemma_column_line(x as int, p, w, h, st, start.len() as int);
            }
            assert forall|i: int| 0 <= i < start.len() implies #[trigger] data[i] == if i % st < x + 1 {
                goal[i]
            } else {
                start[i]
            } by {
                lemma_fundamental_div_mod(i, st);
                lemma_mod_bound(i, st);
                let p = i / st;
                if i % st == x && p < h {
                    assert(p >= 0) by {
                        lemma_div_pos_is_pos(i, st);
                    }
                    assert(i == line_index(x as int, st, p)) by (nonlinear_arith)
                        requires
                            i == st * p + x,
                            line_index(x as int, st, p) == x + p * st,
                    ;
                    assert(on_line(x as int, st, h, i));
                    lemma_sum_same(before, start, x as int, st, h, p - r, p + r + 1);
                    assert(data[line_index(x as int, st, p)] == line_mean(before, x as int, st, h, r, p));
                    assert(in_picture(i, w, h, st));
                } else {
                    if on_line(x as int, st, h, i) {
                        let k = choose|k: int| 0 <= k < h && i == #[trigger] line_index(x as int, st, k);
                        lemma_column_line(x as int, k, w, h, st, start.len() as int);
                        assert(false);
                    }
                    assert(data[i] == before[i]);
                    if i % st == x {
                        assert(goal[i] == start[i]);
                    }
                }
            }
        }
        x = x + 1;
    }
    proof {
        assert forall|i: int| 0 <= i < start.len() implies #[trigger] data[i] == goal[i] by {
            if i % st >= columns {
                assert(!in_picture(i, w, h, st));
            }
        }
        assert(data@ =~= goal);
    }
}

/// The radius in whole pixels.
pub open spec fn whole_radius(radius: Double) -> int {
    clip(whole(radius, Rounding::Nearest), i32::MIN as int, i32::MAX as int)
}

/// Blurs a `width` by `height` picture in place, rows `stride` bytes apart. A
/// radius that rounds to zero or less, or a picture without pixels, changes
/// nothing.
pub fn box_blur(data: &mut Vec<u8>, width: i32, height: i32, stride: i32, radius: Double)
    requires
        whole_radius(radius) > 0 && width > 0 && height > 0 ==> holds_picture(
            old(data).len() as int,
            width as int,
            height as int,
            stride as int,
        ),
    ensures
        final(data)@ == if whole_radius(radius) > 0 && width > 0 && height > 0 {
            blurred(
                old(data)@,
                width as int,
                height as int,
                stride as int,
                whole_radius(radius),
                PASSES as nat,
            )
        } else {
            old(data)@
        },
{
    let r: i32 = radius.to_int(Rounding::Nearest, i32::MIN as i128, i32::MAX as i128) as i32;
    if r <= 0 || width <= 0 || height <= 0 {
        return;
    }
    let ghost start = data@;
    let mut pass: usize = 0;
    while pass < PASSES
        invariant
            pass <= PASSES,
            r > 0,
            holds_picture(data.len() as int, width as int, height as int, stride as int),
            data.len() == start.len(),
            data@ == blurred(start, width as int, height as int, stride as int, r as int, pass as nat),
        decreases PASSES - pass,
    {
        box_blur_horizontal(data, width, height, stride, r);
        box_blur_vertical(data, width, height, stride, r);
        pass = pass + 1;
    }
}

/// The mean over a line whose bytes are all the same is that byte, also next
/// to the line's ends: no edge darkens.
pub proof fn law_uniform_line_stays_uniform(data: Seq<u8>, base: int, step: int, n: int, r: int, p: int, v: u8)
    requires
        n > 0,
        r >= 0,
        forall|q: int| 0 <= q < n ==> data[#[trigger] line_index(base, step, q)] == v,
    ensures
        line_mean(data, base, step, n, r, p) == v,
{
    lemma_uniform_sum(data, base, step, n, p - r, p + r + 1, v);
    let window = 2 * r + 1;
    assert(line_sum(data, base, step, n, p - r, p + r + 1) == v * window);
    assert((v * window + r) / window == v) by (nonlinear_arith)
        requires
            window == 2 * r + 1,
            r >= 0,
            v >= 0,
    ;
}

proof fn lemma_uniform_sum(data: Seq<u8>, base: int, step: int, n: int, lo: int, hi: int, v: u8)
    requires
        n > 0,
        lo <= hi,
        forall|q: int| 0 <= q < n ==> data[#[trigger] line_index(base, step, q)] == v,
    ensures
        line_sum(data, base, step, n, lo, hi) == v * (hi - lo),
    decreases hi - lo,
{
    if lo < hi {
        lemma_uniform_sum(data, base, step, n, lo, hi - 1, v);
        let q = clip(hi - 1, 0, n - 1);
        assert(line_index(base, step, q) == base + q * step);
        assert(v * (hi - lo) == v * (hi - 1 - lo) + v) by (nonlinear_arith);
    } else {
        assert(v * (hi - lo) == 0) by (nonlinear_arith)
            requires
                hi == lo,
        ;
    }
}

/// Whether every pixel of a picture has the four bytes of one color.
pub open spec fn uniform(data: Seq<u8>, width: int, height: int, stride: int, color: Seq<u8>) -> bool {
    forall|i: int|
        0 <= i < data.len() && in_picture(i, width, height, stride) ==> #[trigger] data[i] == color[(i % stride) % 4]
}

/// A picture of one color stays as it is, up to its edges.
pub proof fn law_uniform_picture_stays_uniform(
    data: Seq<u8>,
    width: int,
    height: int,
    stride: int,
    r: int,
    passes: nat,
    color: Seq<u8>,
)
    requires
        r >= 0,
        holds_picture(data.len() as int, width, height, stride),
        uniform(data, width, height, stride, color),
    ensures
        blurred(data, width, height, stride, r, passes) == data,
    decreases passes,
{
    if passes > 0 {
        law_uniform_picture_stays_uniform(data, width, height, stride, r, (passes - 1) as nat, color);
        lemma_uniform_rows(data, width, height, stride, r, color);
        lemma_uniform_columns(data, width, height, stride, r, color);
    }
}

proof fn lemma_uniform_rows(data: Seq<u8>, width: int, height: int, stride: int, r: int, color: Seq<u8>)
    requires
        r >= 0,
        holds_picture(data.len() as int, width, height, stride),
        uniform(data, width, height, stride, color),
    ensures
        blurred_rows(data, width, height, stride, r) == data,
{
    let len = data.len() as int;
    assert forall|i: int| 0 <= i < len implies #[trigger] blurred_rows(data, width, height, stride, r)[i] == data[i] by {
        if in_picture(i, width, height, stride) {
            let (y, off) = (i / stride, i % stride);
            let channel = off % 4;
            lemma_mod_bound(i, stride);
            lemma_div_pos_is_pos(i, stride);
            assert forall|q: int| 0 <= q < width implies data[#[trigger] line_index(y * stride + channel, 4, q)]
                == color[channel] by {
                lemma_row_line(y, channel, q, width, height, stride, len);
            }
            law_uniform_line_stays_uniform(data, y * stride + channel, 4, width, r, off / 4, color[channel]);
        }
    }
    assert(blurred_rows(data, width, height, stride, r) =~= data);
}

proof fn lemma_uniform_columns(data: Seq<u8>, width: int, height: int, stride: int, r: int, color: Seq<u8>)
    requires
        r >= 0,
        holds_picture(data.len() as int, width, height, stride),
        uniform(data, width, height, stride, color),
    ensures
        blurred_columns(data, width, height, stride, r) == data,
{
    let len = data.len() as int;
    assert forall|i: int| 0 <= i < len implies #[trigger] blurred_columns(data, width, height, stride, r)[i]
        == data[i] by {
        if in_picture(i, width, height, stride) {
            let off = i % stride;
            lemma_mod_bound(i, stride);
            assert forall|q: int| 0 <= q < height implies data[#[trigger] line_index(off, stride, q)] == color[off
                % 4] by {
                lemma_column_line(off, q, width, height, stride, len);
            }
            law_uniform_line_stays_uniform(data, off, stride, height, r, i / stride, color[off % 4]);
        }
    }
    assert(blurred_columns(data, width, height, stride, r) =~= data);
}

/// Whether a picture is blank but for the pixels of a box: those of the columns
/// from `left` up to `right` in the rows from `top` up to `bottom`, ends not
/// included.
pub open spec fn blank_outside(
    data: Seq<u8>,
    width: int,
    height: int,
    stride: int,
    left: int,
    top: int,
    right: int,
    bottom: int,
) -> bool {
    forall|i: int|
        0 <= i < data.len() && in_picture(i, width, height, stride) && !(left <= (i % stride) / 4 < right && top <= i
            / stride < bottom) ==> #[trigger] data[i] == 0
}

proof fn lemma_blank_mean(data: Seq<u8>, base: int, step: int, n: int, r: int, p: int)
    requires
        r >= 0,
        forall|q: int| p - r <= q <= p + r ==> #[trigger] line_byte(data, base, step, n, q) == 0,
    ensures
        line_mean(data, base, step, n, r, p) == 0,
{
    lemma_blank_sum(data, base, step, n, p - r, p + r + 1);
    assert(r / (2 * r + 1) == 0) by (nonlinear_arith)
        requires
            r >= 0,
    ;
}

proof fn lemma_blank_sum(data: Seq<u8>, base: int, step: int, n: int, lo: int, hi: int)
    requires
        forall|q: int| lo <= q < hi ==> #[trigger] line_byte(data, base, step, n, q) == 0,
    ensures
        line_sum(data, base, step, n, lo, hi) == 0,
    decreases hi - lo,
{
    if lo < hi {
        lemma_blank_sum(data, base, step, n, lo, hi - 1);
        assert(line_byte(data, base, step, n, hi - 1) == 0);
    }
}

proof fn lemma_blank_rows(
    data: Seq<u8>,
    width: int,
    height: int,
    stride: int,
    r: int,
    left: int,
    top: int,
    right: int,
    bottom: int,
)
    requires
        r >= 0,
        holds_picture(data.len() as int, width, height, stride),
        blank_outside(data, width, height, stride, left, top, right, bottom),
    ensures
        blank_outside(
            blurred_rows(data, width, height, stride, r),
            width,
            height,
            stride,
            left - r,
            top,
            right + r,
            bottom,
        ),
{
    let after = blurred_rows(data, width, height, stride, r);
    let len = data.len() as int;
    assert forall|i: int|
        0 <= i < after.len() && in_picture(i, width, height, stride) && !(left - r <= (i % stride) / 4 < right + r
            && top <= i / stride < bottom) implies #[trigger] after[i] == 0 by {
        let (y, off) = (i / stride, i % stride);
        let (x, channel) = (off / 4, off % 4);
        let base = y * stride + channel;
        lemma_mod_bound(i, stride);
        lemma_div_pos_is_pos(i, stride);
        assert forall|q: int| x - r <= q <= x + r implies #[trigger] line_byte(data, base, 4, width, q) == 0 by {
            let at = clip(q, 0, width - 1);
            lemma_row_line(y, channel, at, width, height, stride, len);
            let k = line_index(base, 4, at);
            assert((k % stride) / 4 == at);
            assert(in_picture(k, width, height, stride));
            assert(data[k] == 0);
        }
        lemma_blank_mean(data, base, 4, width, r, x);
    }
}

proof fn lemma_blank_columns(
    data: Seq<u8>,
    width: int,
    height: int,
    stride: int,
    r: int,
    left: int,
    top: int,
    right: int,
    bottom: int,
)
    requires
        r >= 0,
        holds_picture(data.len() as int, width, height, stride),
        blank_outside(data, width, height, stride, left, top, right, bottom),
    ensures
        blank_outside(
            blurred_columns(data, width, height, stride, r),
            width,
            height,
            stride,
            left,
            top - r,
            right,
            bottom + r,
        ),
{
    let after = blurred_columns(data, width, height, stride, r);
    let len = data.len() as int;
    assert forall|i: int|
        0 <= i < after.len() && in_picture(i, width, height, stride) && !(left <= (i % stride) / 4 < right && top - r
            <= i / stride < bottom + r) implies #[trigger] after[i] == 0 by {
        let (y, off) = (i / stride, i % stride);
        lemma_mod_bound(i, stride);
        lemma_div_pos_is_pos(i, stride);
        assert forall|q: int| y - r <= q <= y + r implies #[trigger] line_byte(data, off, stride, height, q) == 0 by {
            let at = clip(q, 0, height - 1);
            lemma_column_line(off, at, width, height, stride, len);
            let k = line_index(off, stride, at);
            assert(in_picture(k, width, height, stride));
            assert(data[k] == 0);
        }
        lemma_blank_mean(data, off, stride, height, r, y);
    }
}

/// Each pass spreads a shape by the radius at most: a picture that is blank
/// outside a box stays blank outside the box widened by the radius, once for
/// each pass, on every side.
pub proof fn law_blur_spreads_by_the_radius(
    data: Seq<u8>,
    width: int,
    height: int,
    stride: int,
    r: int,
    passes: nat,
    left: int,
    top: int,
    right: int,
    bottom: int,
)
    requires
        r >= 0,
        holds_picture(data.len() as int, width, height, stride),
        blank_outside(data, width, height, stride, left, top, right, bottom),
    ensures
        blurred(data, width, height, stride, r, passes).len() == data.len(),
        blank_outside(
            blurred(data, width, height, stride, r, passes),
            width,
            height,
            stride,
            left - passes * r,
            top - passes * r,
            right + passes * r,
            bottom + passes * r,
        ),
    decreases passes,
{
    if passes > 0 {
        let fewer = (passes - 1) as nat;
        let before = blurred(data, width, height, stride, r, fewer);
        let reach = fewer * r;
        law_blur_spreads_by_the_radius(data, width, height, stride, r, fewer, left, top, right, bottom);
        assert(passes * r == reach + r) by (nonlinear_arith)
            requires
                passes == fewer + 1,
                reach == fewer * r,
        ;
        lemma_blank_rows(before, width, height, stride, r, left - reach, top - reach, right + reach, bottom + reach);
        lemma_blank_columns(
            blurred_rows(before, width, height, stride, r),
            width,
            height,
            stride,
            r,
            left - reach - r,
            top - reach,
            right + reach + r,
            bottom + reach,
        );
    } else {
        assert(passes * r == 0) by (nonlinear_arith)
            requires
                passes == 0,
        ;
    }
}

/// The mean of one byte is the byte.
proof fn lemma_mean_of_one(data: Seq<u8>, base: int, step: int, n: int, p: int)
    requires
        0 <= p < n,
    ensures
        line_mean(data, base, step, n, 0, p) == data[base + p * step],
{
    let v = line_byte(data, base, step, n, p);
    assert(line_sum(data, base, step, n, p, p) == 0);
    assert(line_sum(data, base, step, n, p - 0, p + 0 + 1) == v);
    let window: int = 2 * 0int + 1;
    assert((v + 0) / window == v) by (nonlinear_arith)
        requires
            window == 1,
    ;
}

/// A pass of radius zero changes nothing.
pub proof fn law_zero_radius_changes_nothing(data: Seq<u8>, width: int, height: int, stride: int)
    requires
        holds_picture(data.len() as int, width, height, stride),
    ensures
        blurred_rows(data, width, height, stride, 0) == data,
        blurred_columns(data, width, height, stride, 0) == data,
{
    let (rows, columns) = (
        blurred_rows(data, width, height, stride, 0),
        blurred_columns(data, width, height, stride, 0),
    );
    assert forall|i: int| 0 <= i < data.len() implies #[trigger] rows[i] == data[i] && columns[i] == data[i] by {
        if in_picture(i, width, height, stride) {
            let (y, off) = (i / stride, i % stride);
            let (p, base) = (off / 4, y * stride + off % 4);
            lemma_fundamental_div_mod(i, stride);
            lemma_fundamental_div_mod(off, 4);
            lemma_mod_bound(i, stride);
            lemma_div_pos_is_pos(i, stride);
            assert(y * stride == stride * y) by (nonlinear_arith);
            lemma_mean_of_one(data, base, 4, width, p);
            lemma_mean_of_one(data, off, stride, height, y);
        }
    }
    assert(rows =~= data);
    assert(columns =~= data);
}

/// Whether the bytes of one channel of a picture all lie between two values.
pub open spec fn channel_within(
    data: Seq<u8>,
    width: int,
    height: int,
    stride: int,
    channel: int,
    least: int,
    most: int,
) -> bool {
    forall|i: int|
        0 <= i < data.len() && in_picture(i, width, height, stride) && (i % stride) % 4 == channel ==> least
            <= #[trigger] data[i] <= most
}

/// A mean lies between the least and the greatest of the bytes.
proof fn lemma_mean_within(data: Seq<u8>, base: int, step: int, n: int, r: int, p: int, least: int, most: int)
    requires
        n > 0,
        r >= 0,
        0 <= least,
        most <= 255,
        forall|q: int| 0 <= q < n ==> least <= data[#[trigger] line_index(base, step, q)] <= most,
    ensures
        least <= line_mean(data, base, step, n, r, p) <= most,
{
    let window = 2 * r + 1;
    let total = line_sum(data, base, step, n, p - r, p + r + 1);
    lemma_sum_within(data, base, step, n, p - r, p + r + 1, least, most);
    assert(least <= (total + r) / window <= most) by (nonlinear_arith)
        requires
            least * window <= total <= most * window,
            window == 2 * r + 1,
            r >= 0,
    ;
}

proof fn lemma_sum_within(data: Seq<u8>, base: int, step: int, n: int, lo: int, hi: int, least: int, most: int)
    requires
        n > 0,
        lo <= hi,
        forall|q: int| 0 <= q < n ==> least <= data[#[trigger] line_index(base, step, q)] <= most,
    ensures
        least * (hi - lo) <= line_sum(data, base, step, n, lo, hi) <= most * (hi - lo),
    decreases hi - lo,
{
    if lo < hi {
        lemma_sum_within(data, base, step, n, lo, hi - 1, least, most);
        let q = clip(hi - 1, 0, n - 1);
        assert(line_index(base, step, q) == base + q * step);
        assert(least * (hi - lo) == least * (hi - 1 - lo) + least) by (nonlinear_arith);
        assert(most * (hi - lo) == most * (hi - 1 - lo) + most) by (nonlinear_arith);
    } else {
        assert(least * (hi - lo) == 0 && most * (hi - lo) == 0) by (nonlinear_arith)
            requires
                hi == lo,
        ;
    }
}

/// A blur brings nothing new: every channel stays between its least and its
/// greatest value.
pub proof fn law_blur_stays_within_the_extremes(
    data: Seq<u8>,
    width: int,
    height: int,
    stride: int,
    r: int,
    passes: nat,
    channel: int,
    least: int,
    most: int,
)
    requires
        r >= 0,
        0 <= least,
        most <= 255,
        holds_picture(data.len() as int, width, height, stride),
        channel_within(data, width, height, stride, channel, least, most),
    ensures
        blurred(data, width, height, stride, r, passes).len() == data.len(),
        channel_within(blurred(data, width, height, stride, r, passes), width, height, stride, channel, least, most),
    decreases passes,
{
    if passes > 0 {
        let before = blurred(data, width, height, stride, r, (passes - 1) as nat);
        law_blur_stays_within_the_extremes(
            data,
            width,
            height,
            stride,
            r,
            (passes - 1) as nat,
            channel,
            least,
            most,
        );
        lemma_rows_within(before, width, height, stride, r, channel, least, most);
        let rows = blurred_rows(before, width, height, stride, r);
        lemma_columns_within(rows, width, height, stride, r, channel, least, most);
    }
}

proof fn lemma_rows_within(
    data: Seq<u8>,
    width: int,
    height: int,
    stride: int,
    r: int,
    channel: int,
    least: int,
    most: int,
)
    requires
        r >= 0,
        0 <= least,
        most <= 255,
        holds_picture(data.len() as int, width, height, stride),
        channel_within(data, width, height, stride, channel, least, most),
    ensures
        channel_within(blurred_rows(data, width, height, stride, r), width, height, stride, channel, least, most),
{
    let after = blurred_rows(data, width, height, stride, r);
    let len = data.len() as int;
    assert forall|i: int|
        0 <= i < after.len() && in_picture(i, width, height, stride) && (i % stride) % 4 == channel implies least
        <= #[trigger] after[i] <= most by {
        let (y, off) = (i / stride, i % stride);
        lemma_mod_bound(i, stride);
        lemma_div_pos_is_pos(i, stride);
        let base = y * stride + channel;
        assert forall|q: int| 0 <= q < width implies least <= data[#[trigger] line_index(base, 4, q)] <= most by {
            lemma_row_line(y, channel, q, width, height, stride, len);
        }
        lemma_mean_within(data, base, 4, width, r, off / 4, least, most);
    }
}

proof fn lemma_columns_within(
    data: Seq<u8>,
    width: int,
    height: int,
    stride: int,
    r: int,
    channel: int,
    least: int,
    most: int,
)
    requires
        r >= 0,
        0 <= least,
        most <= 255,
        holds_picture(data.len() as int, width, height, stride),
        channel_within(data, width, height, stride, channel, least, most),
    ensures
        channel_within(blurred_columns(data, width, height, stride, r), width, height, stride, channel, least, most),
{
    let after = blurred_columns(data, width, height, stride, r);
    let len = data.len() as int;
    assert forall|i: int|
        0 <= i < after.len() && in_picture(i, width, height, stride) && (i % stride) % 4 == channel implies least
        <= #[trigger] after[i] <= most by {
        let off = i % stride;
        lemma_mod_bound(i, stride);
        assert forall|q: int| 0 <= q < height implies least <= data[#[trigger] line_index(off, stride, q)] <= most by {
            lemma_column_line(off, q, width, height, stride, len);
        }
        lemma_mean_within(data, off, stride, height, r, i / stride, least, most);
    }
}

/// Where the alpha of the pixel lies that the byte at `i` belongs to.
pub open spec fn alpha_index(i: int, stride: int) -> int {
    i - (i % stride) % 4 + 3
}

/// Whether no pixel of a picture has a channel greater than its alpha, as
/// premultiplied ones have.
pub open spec fn premultiplied(data: Seq<u8>, width: int, height: int, stride: int) -> bool {
    forall|i: int|
        0 <= i < data.len() && in_picture(i, width, height, stride) ==> #[trigger] data[i] <= data[alpha_index(
            i,
            stride,
        )]
}

/// The mean over a line is no more than that over a line whose bytes are all
/// no less.
proof fn lemma_mean_below(data: Seq<u8>, base: int, other: int, step: int, n: int, r: int, p: int)
    requires
        n > 0,
        r >= 0,
        forall|q: int|
            0 <= q < n ==> data[#[trigger] line_index(base, step, q)] <= data[line_index(other, step, q)],
    ensures
        line_mean(data, base, step, n, r, p) <= line_mean(data, other, step, n, r, p),
{
    let window = 2 * r + 1;
    let (a, b) = (
        line_sum(data, base, step, n, p - r, p + r + 1),
        line_sum(data, other, step, n, p - r, p + r + 1),
    );
    lemma_sum_below(data, base, other, step, n, p - r, p + r + 1);
    lemma_sum_bounds(data, base, step, n, p - r, p + r + 1);
    lemma_sum_bounds(data, other, step, n, p - r, p + r + 1);
    assert(0 <= (a + r) / window <= (b + r) / window <= 255) by (nonlinear_arith)
        requires
            0 <= a <= b <= 255 * window,
            window == 2 * r + 1,
            r >= 0,
    ;
}

proof fn lemma_sum_below(data: Seq<u8>, base: int, other: int, step: int, n: int, lo: int, hi: int)
    requires
        n > 0,
        forall|q: int|
            0 <= q < n ==> data[#[trigger] line_index(base, step, q)] <= data[line_index(other, step, q)],
    ensures
        line_sum(data, base, step, n, lo, hi) <= line_sum(data, other, step, n, lo, hi),
    decreases hi - lo,
{
    if lo < hi {
        lemma_sum_below(data, base, other, step, n, lo, hi - 1);
        let q = clip(hi - 1, 0, n - 1);
        assert(line_index(base, step, q) == base + q * step);
        assert(line_index(other, step, q) == other + q * step);
    }
}

/// The alpha of a pixel, by its row and its offset in the row.
proof fn lemma_alpha_place(i: int, width: int, height: int, stride: int, len: int)
    requires
        0 <= i < len,
        in_picture(i, width, height, stride),
        holds_picture(len, width, height, stride),
    ensures
        ({
            let (k, x) = (alpha_index(i, stride), (i % stride) / 4);
            &&& 0 <= k < len
            &&& k / stride == i / stride
            &&& k % stride == 4 * x + 3
            &&& i % stride == 4 * x + (i % stride) % 4
            &&& 0 <= x < width
            &&& in_picture(k, width, height, stride)
        }),
{
    let (y, off) = (i / stride, i % stride);
    let x = off / 4;
    lemma_fundamental_div_mod(i, stride);
    lemma_mod_bound(i, stride);
    lemma_div_pos_is_pos(i, stride);
    lemma_fundamental_div_mod(off, 4);
    lemma_row_line(y, 3, x, width, height, stride, len);
    assert(y * stride == stride * y) by (nonlinear_arith);
    assert(alpha_index(i, stride) == line_index(y * stride + 3, 4, x));
}

/// Premultiplied pixels stay premultiplied.
pub proof fn law_blur_keeps_pixels_premultiplied(
    data: Seq<u8>,
    width: int,
    height: int,
    stride: int,
    r: int,
    passes: nat,
)
    requires
        r >= 0,
        holds_picture(data.len() as int, width, height, stride),
        premultiplied(data, width, height, stride),
    ensures
        blurred(data, width, height, stride, r, passes).len() == data.len(),
        premultiplied(blurred(data, width, height, stride, r, passes), width, height, stride),
    decreases passes,
{
    if passes > 0 {
        let before = blurred(data, width, height, stride, r, (passes - 1) as nat);
        law_blur_keeps_pixels_premultiplied(data, width, height, stride, r, (passes - 1) as nat);
        lemma_rows_premultiplied(before, width, height, stride, r);
        lemma_columns_premultiplied(blurred_rows(before, width, height, stride, r), width, height, stride, r);
    }
}

proof fn lemma_rows_premultiplied(data: Seq<u8>, width: int, height: int, stride: int, r: int)
    requires
        r >= 0,
        holds_picture(data.len() as int, width, height, stride),
        premultiplied(data, width, height, stride),
    ensures
        premultiplied(blurred_rows(data, width, height, stride, r), width, height, stride),
{
    let after = blurred_rows(data, width, height, stride, r);
    let len = data.len() as int;
    assert forall|i: int| 0 <= i < after.len() && in_picture(i, width, height, stride) implies #[trigger] after[i]
        <= after[alpha_index(i, stride)] by {
        let (y, off) = (i / stride, i % stride);
        let (x, channel) = (off / 4, off % 4);
        let (base, alpha) = (y * stride + channel, y * stride + 3);
        lemma_alpha_place(i, width, height, stride, len);
        lemma_div_pos_is_pos(i, stride);
        assert forall|q: int| 0 <= q < width implies data[#[trigger] line_index(base, 4, q)] <= data[line_index(
            alpha,
            4,
            q,
        )] by {
            lemma_row_line(y, channel, q, width, height, stride, len);
            let k = line_index(base, 4, q);
            assert(in_picture(k, width, height, stride));
            assert(alpha_index(k, stride) == line_index(alpha, 4, q));
            assert(data[k] <= data[alpha_index(k, stride)]);
        }
        lemma_mean_below(data, base, alpha, 4, width, r, x);
        assert((4 * x + 3) / 4 == x && (4 * x + 3) % 4 == 3);
        assert(after[alpha_index(i, stride)] == line_mean(data, alpha, 4, width, r, x));
    }
}

proof fn lemma_columns_premultiplied(data: Seq<u8>, width: int, height: int, stride: int, r: int)
    requires
        r >= 0,
        holds_picture(data.len() as int, width, height, stride),
        premultiplied(data, width, height, stride),
    ensures
        premultiplied(blurred_columns(data, width, height, stride, r), width, height, stride),
{
    let after = blurred_columns(data, width, height, stride, r);
    let len = data.len() as int;
    assert forall|i: int| 0 <= i < after.len() && in_picture(i, width, height, stride) implies #[trigger] after[i]
        <= after[alpha_index(i, stride)] by {
        let (y, off) = (i / stride, i % stride);
        let alpha = 4 * (off / 4) + 3;
        lemma_alpha_place(i, width, height, stride, len);
        lemma_mod_bound(i, stride);
        assert forall|q: int| 0 <= q < height implies data[#[trigger] line_index(off, stride, q)] <= data[line_index(
            alpha,
            stride,
            q,
        )] by {
            lemma_column_line(off, q, width, height, stride, len);
            let k = line_index(off, stride, q);
            assert(in_picture(k, width, height, stride));
            assert(alpha_index(k, stride) == line_index(alpha, stride, q));
            assert(data[k] <= data[alpha_index(k, stride)]);
        }
        lemma_mean_below(data, off, alpha, stride, height, r, y);
        assert(after[alpha_index(i, stride)] == line_mean(data, alpha, stride, height, r, y));
    }
}

/// A pass touches no byte outside the picture.
pub proof fn law_padding_is_untouched(data: Seq<u8>, width: int, height: int, stride: int, r: int, passes: nat, i: int)
    requires
        0 <= i < data.len(),
        !in_picture(i, width, height, stride),
    ensures
        blurred(data, width, height, stride, r, passes).len() == data.len(),
        blurred(data, width, height, stride, r, passes)[i] == data[i],
    decreases passes,
{
    if passes > 0 {
        law_padding_is_untouched(data, width, height, stride, r, (passes - 1) as nat, i);
    }
}

} // verus!
