//! Preset patterns of vector shapes.
use crate::arith_laws::{lemma_int_double_exact, lemma_round_units_monotone, lemma_sum_val};
use crate::double::{lemma_mag_ordered, one_unit, opposite, sum, UNIT_EXP, Double};
use crate::model::{Rgba, VectorShape};
use crate::order::lt;
use crate::whole::int_double;
use vstd::arithmetic::div_mod::*;
use vstd::arithmetic::power2::*;
use vstd::prelude::*;

verus! {

pub const DOT_SPACING: i64 = 40;

pub const DOT_RADIUS: i64 = 3;

pub const LINE_SPACING: i64 = 60;

pub const LINE_WIDTH: i64 = 2;

/// A side that a pattern can cover: steps between shapes are lost on numbers
/// beyond.
pub open spec fn coverable(side: Double) -> bool {
    side.nan() || -0x8_0000_0000_0000 * one_unit() <= side.val() <= 0x8_0000_0000_0000 * one_unit()
}

/// The `k`th position from `start` on.
pub open spec fn position(start: Double, step: Double, k: nat) -> Double
    decreases k,
{
    if k == 0 {
        start
    } else {
        sum(position(start, step, (k - 1) as nat), step)
    }
}

/// Whether the positions below a limit are the first `n`.
pub open spec fn counts_below(start: Double, step: Double, limit: Double, n: nat) -> bool {
    &&& !lt(position(start, step, n), limit)
    &&& forall|k: nat| k < n ==> lt(#[trigger] position(start, step, k), limit)
}

pub open spec fn dot(color: Rgba, column: nat, row: nat) -> VectorShape {
    VectorShape::Circle {
        cx: position(int_double(DOT_SPACING / 2), int_double(DOT_SPACING as int), column),
        cy: position(int_double(DOT_SPACING / 2), int_double(DOT_SPACING as int), row),
        radius: int_double(DOT_RADIUS as int),
        color,
    }
}

/// Whether shapes are the dots of a grid of so many columns and rows, row by
/// row.
pub open spec fn are_dots(shapes: Seq<VectorShape>, color: Rgba, columns: nat, rows: nat) -> bool {
    &&& shapes.len() == columns * rows
    &&& forall|row: nat, column: nat|
        row < rows && column < columns ==> shapes[#[trigger] cell(columns, row, column)] == dot(color, column, row)
}

/// Where a grid's cell stands in its list.
pub open spec fn cell(columns: nat, row: nat, column: nat) -> int {
    (row * columns + column) as int
}

/// Whether shapes are the dot pattern of a canvas: as many dots in each
/// direction as begin before its edge.
pub open spec fn is_dot_grid(shapes: Seq<VectorShape>, width: Double, height: Double, color: Rgba) -> bool {
    exists|columns: nat, rows: nat|
        #![trigger are_dots(shapes, color, columns, rows)]
        {
            let start = int_double(DOT_SPACING / 2);
            let step = int_double(DOT_SPACING as int);
            &&& counts_below(start, step, height, rows)
            &&& rows > 0 ==> counts_below(start, step, width, columns)
            &&& are_dots(shapes, color, columns, rows)
        }
}

/// The `k`th diagonal line of a canvas of a height.
pub open spec fn stripe(height: Double, color: Rgba, k: nat) -> VectorShape {
    let offset = position(opposite(height), int_double(LINE_SPACING as int), k);
    VectorShape::Line {
        x1: offset,
        y1: int_double(0),
        x2: sum(offset, height),
        y2: height,
        width: int_double(LINE_WIDTH as int),
        color,
    }
}

/// Whether shapes are the diagonal lines of a canvas: those that begin before
/// its right edge.
pub open spec fn is_stripes(shapes: Seq<VectorShape>, width: Double, height: Double, color: Rgba) -> bool {
    &&& counts_below(opposite(height), int_double(LINE_SPACING as int), width, shapes.len())
    &&& forall|k: nat| k < shapes.len() ==> #[trigger] shapes[k as int] == stripe(height, color, k)
}

/// A preset pattern.
#[derive(Clone, Copy, Debug, PartialEq, Eq, Structural)]
pub enum DecorationPreset {
    Dots,
    DiagonalLines,
}

/// A step of a whole number moves a number of moderate size on by at least the
/// step less one.
proof fn lemma_step(a: Double, step: int)
    requires
        a.finite(),
        1 <= step <= 100,
        -0x10_0000_0000_0000 * one_unit() <= a.val() <= 0x10_0000_0000_0000 * one_unit(),
    ensures
        !sum(a, int_double(step)).nan(),
        sum(a, int_double(step)).finite(),
        sum(a, int_double(step)).val() >= a.val() + (step - 1) * one_unit(),
        sum(a, int_double(step)).val() <= a.val() + (step + 1) * one_unit(),
{
    let u = one_unit() as int;
    lemma_pow2_pos(UNIT_EXP as nat);
    lemma_int_double_exact(step);
    lemma_sum_val(a, int_double(step));
    let exact = a.val() + step * u;
    let n = exact / u;
    lemma_fundamental_div_mod(exact, u);
    lemma_mod_bound(exact, u);
    assert(n * u <= exact < (n + 1) * u) by (nonlinear_arith)
        requires
            exact == u * n + exact % u,
            0 <= exact % u < u,
    ;
    assert(exact <= (0x10_0000_0000_0000 + 100) * u && exact >= -0x10_0000_0000_0000 * u) by (nonlinear_arith)
        requires
            exact == a.val() + step * u,
            -0x10_0000_0000_0000 * u <= a.val() <= 0x10_0000_0000_0000 * u,
            1 <= step <= 100,
            u > 0,
    ;
    assert(-0x20_0000_0000_0000 <= n && n + 1 <= 0x20_0000_0000_0000) by (nonlinear_arith)
        requires
            n * u <= exact < (n + 1) * u,
            exact <= (0x10_0000_0000_0000 + 100) * u,
            exact >= -0x10_0000_0000_0000 * u,
            u > 0,
    ;
    lemma_int_double_exact(n);
    lemma_int_double_exact(n + 1);
    lemma_round_units_monotone(n * u, exact);
    lemma_round_units_monotone(exact, (n + 1) * u);
    assert((n + 1) * u == n * u + u) by (nonlinear_arith);
    assert((step - 1) * u == step * u - u && (step + 1) * u == step * u + u) by (nonlinear_arith);
    lemma_finite_between(n, sum(a, int_double(step)));
}

/// A number that is no greater than a double is finite.
proof fn lemma_finite_between(n: int, s: Double)
    requires
        !s.nan(),
        -0x20_0000_0000_0000 <= n && n + 1 <= 0x20_0000_0000_0000,
        n * one_unit() <= s.val() <= (n + 1) * one_unit(),
    ensures
        s.finite(),
{
    lemma_int_double_exact(n);
    lemma_int_double_exact(n + 1);
    if !s.finite() {
        lemma_mag_ordered(int_double(n).low(), s.low());
        lemma_mag_ordered(int_double(n + 1).low(), s.low());
        lemma_mag_ordered(0, s.low());
        lemma_pow2_pos(UNIT_EXP as nat);
    }
}

/// The number of whole units of one that a number is worth, rounded down.
spec fn floor_units(a: Double) -> int {
    a.val() / (one_unit() as int)
}

proof fn lemma_floor_grows(a: Double, b: Double)
    requires
        b.val() >= a.val() + one_unit(),
        b.val() <= a.val() + 61 * one_unit(),
    ensures
        floor_units(a) + 1 <= floor_units(b) <= floor_units(a) + 62,
{
    let u = one_unit() as int;
    lemma_pow2_pos(UNIT_EXP as nat);
    lemma_fundamental_div_mod(a.val(), u);
    lemma_fundamental_div_mod(b.val(), u);
    lemma_mod_bound(a.val(), u);
    lemma_mod_bound(b.val(), u);
    let (p, q) = (floor_units(a), floor_units(b));
    assert(q >= p + 1) by (nonlinear_arith)
        requires
            a.val() >= u * p,
            b.val() < u * q + u,
            b.val() >= a.val() + u,
            u > 0,
    ;
    assert(q <= p + 62) by (nonlinear_arith)
        requires
            a.val() < u * p + u,
            b.val() >= u * q,
            b.val() <= a.val() + 61 * u,
            u > 0,
    ;
}

/// One row of dots, behind the shapes that are there already.
fn dot_row(shapes: &mut Vec<VectorShape>, width: Double, color: Rgba, y: Double) -> (columns: Ghost<nat>)
    requires
        coverable(width),
    ensures
        counts_below(int_double(DOT_SPACING / 2), int_double(DOT_SPACING as int), width, columns@),
        final(shapes).len() == old(shapes).len() + columns@,
        forall|i: int| 0 <= i < old(shapes).len() ==> #[trigger] final(shapes)[i] == old(shapes)[i],
        forall|i: int|
            old(shapes).len() <= i < final(shapes).len() ==> #[trigger] final(shapes)[i] == (VectorShape::Circle {
                cx: position(
                    int_double(DOT_SPACING / 2),
                    int_double(DOT_SPACING as int),
                    (i - old(shapes).len()) as nat,
                ),
                cy: y,
                radius: int_double(DOT_RADIUS as int),
                color,
            }),
{
    let step = Double::from_int(DOT_SPACING);
    let radius = Double::from_int(DOT_RADIUS);
    let ghost start = int_double(DOT_SPACING / 2);
    let ghost before = shapes@;
    let mut x = Double::from_int(DOT_SPACING / 2);
    let ghost mut n: nat = 0;
    proof {
        lemma_int_double_exact(20);
        lemma_pow2_pos(UNIT_EXP as nat);
    }
    while x.less(width)
        invariant
            coverable(width),
            step == int_double(DOT_SPACING as int),
            radius == int_double(DOT_RADIUS as int),
            start == int_double(DOT_SPACING / 2),
            x == position(start, step, n),
            x.finite(),
            x.val() >= 0,
            one_unit() > 0,
            shapes.len() == before.len() + n,
            forall|k: nat| k < n ==> lt(#[trigger] position(start, step, k), width),
            forall|i: int| 0 <= i < before.len() ==> #[trigger] shapes[i] == before[i],
            forall|i: int|
                before.len() <= i < shapes.len() ==> #[trigger] shapes[i] == (VectorShape::Circle {
                    cx: position(start, step, (i - before.len()) as nat),
                    cy: y,
                    radius,
                    color,
                }),
        decreases 0x8_0000_0000_0100 - floor_units(x),
    {
        proof {
            lemma_floor_at_most(x, width);
        }
        shapes.push(VectorShape::Circle { cx: x, cy: y, radius, color });
        let ghost was = x;
        proof {
            lemma_step(x, DOT_SPACING as int);
        }
        x = x.plus(step);
        proof {
            assert(x.val() >= was.val() + one_unit() && x.val() <= was.val() + 61 * one_unit())
                by (nonlinear_arith)
                requires
                    x.val() >= was.val() + (DOT_SPACING - 1) * one_unit(),
                    x.val() <= was.val() + (DOT_SPACING + 1) * one_unit(),
                    one_unit() > 0,
                    DOT_SPACING == 40,
            ;
            lemma_floor_grows(was, x);
            n = n + 1;
        }
    }
    Ghost(n)
}

/// A number below a coverable side is of moderate size.
proof fn lemma_floor_at_most(x: Double, side: Double)
    requires
        coverable(side),
        lt(x, side),
    ensures
        x.val() < 0x8_0000_0000_0000 * one_unit(),
        floor_units(x) < 0x8_0000_0000_0000,
{
    let u = one_unit() as int;
    lemma_pow2_pos(UNIT_EXP as nat);
    lemma_fundamental_div_mod(x.val(), u);
    lemma_mod_bound(x.val(), u);
    let p = floor_units(x);
    assert(p < 0x8_0000_0000_0000) by (nonlinear_arith)
        requires
            u * p <= x.val(),
            x.val() < 0x8_0000_0000_0000 * u,
            u > 0,
    ;
}

/// Dots at even distances, half a distance in from the edges.
fn dot_grid(width: Double, height: Double, color: Rgba) -> (res: Vec<VectorShape>)
    requires
        coverable(width),
        coverable(height),
    ensures
        is_dot_grid(res@, width, height, color),
{
    let step = Double::from_int(DOT_SPACING);
    let ghost start = int_double(DOT_SPACING / 2);
    let mut shapes: Vec<VectorShape> = Vec::new();
    let mut y = Double::from_int(DOT_SPACING / 2);
    let ghost mut rows: nat = 0;
    let ghost mut columns: nat = 0;
    proof {
        lemma_int_double_exact(20);
        lemma_pow2_pos(UNIT_EXP as nat);
        assert(columns * rows == 0);
    }
    while y.less(height)
        invariant
            coverable(width),
            coverable(height),
            step == int_double(DOT_SPACING as int),
            start == int_double(DOT_SPACING / 2),
            y == position(start, step, rows),
            y.finite(),
            y.val() >= 0,
            one_unit() > 0,
            forall|k: nat| k < rows ==> lt(#[trigger] position(start, step, k), height),
            rows > 0 ==> counts_below(start, step, width, columns),
            are_dots(shapes@, color, columns, rows),
        decreases 0x8_0000_0000_0100 - floor_units(y),
    {
        let ghost before = shapes@;
        proof {
            lemma_floor_at_most(y, height);
        }
        let count = dot_row(&mut shapes, width, color, y);
        let ghost was = y;
        proof {
            if rows > 0 {
                lemma_count_unique(start, step, width, columns, count@);
            } else {
                assert(columns * rows == 0 && count@ * rows == 0) by (nonlinear_arith)
                    requires
                        rows == 0,
                ;
            }
            columns = count@;
            assert(before.len() == columns * rows);
            assert forall|row: nat, column: nat| row < rows + 1 && column < columns implies shapes@[#[trigger] cell(
                columns,
                row,
                column,
            )] == dot(color, column, row) by {
                if row < rows {
                    assert(0 <= cell(columns, row, column) < columns * rows) by (nonlinear_arith)
                        requires
                            cell(columns, row, column) == row * columns + column,
                            row + 1 <= rows,
                            column < columns,
                    ;
                    assert(before[cell(columns, row, column)] == dot(color, column, row));
                } else {
                    assert(cell(columns, row, column) == before.len() + column) by (nonlinear_arith)
                        requires
                            cell(columns, row, column) == row * columns + column,
                            row == rows,
                            before.len() == columns * rows,
                    ;
                }
            }
            assert(shapes@.len() == columns * (rows + 1)) by (nonlinear_arith)
                requires
                    shapes@.len() == before.len() + columns,
                    before.len() == columns * rows,
            ;
            lemma_step(y, DOT_SPACING as int);
        }
        y = y.plus(step);
        proof {
            assert(y.val() >= was.val() + one_unit() && y.val() <= was.val() + 61 * one_unit())
                by (nonlinear_arith)
                requires
                    y.val() >= was.val() + (DOT_SPACING - 1) * one_unit(),
                    y.val() <= was.val() + (DOT_SPACING + 1) * one_unit(),
                    one_unit() > 0,
                    DOT_SPACING == 40,
            ;
            lemma_floor_grows(was, y);
            rows = rows + 1;
        }
    }
    proof {
        assert(are_dots(shapes@, color, columns, rows));
        assert(counts_below(start, step, height, rows));
    }
    shapes
}

proof fn lemma_count_unique(start: Double, step: Double, limit: Double, m: nat, n: nat)
    requires
        counts_below(start, step, limit, m),
        counts_below(start, step, limit, n),
    ensures
        m == n,
{
    if m < n {
        assert(lt(position(start, step, m), limit));
    } else if n < m {
        assert(lt(position(start, step, n), limit));
    }
}

/// Stripes at 45 degrees that sweep over the whole canvas.
fn diagonal_lines(width: Double, height: Double, color: Rgba) -> (res: Vec<VectorShape>)
    requires
        coverable(width),
        coverable(height),
    ensures
        is_stripes(res@, width, height, color),
{
    let step = Double::from_int(LINE_SPACING);
    let line_width = Double::from_int(LINE_WIDTH);
    let top = Double::zero();
    let ghost start = opposite(height);
    let mut shapes: Vec<VectorShape> = Vec::new();
    let mut offset = height.negated();
    let ghost mut n: nat = 0;
    proof {
        lemma_pow2_pos(UNIT_EXP as nat);
        lemma_coverable_finite(height);
    }
    while offset.less(width)
        invariant
            coverable(width),
            step == int_double(LINE_SPACING as int),
            line_width == int_double(LINE_WIDTH as int),
            top == int_double(0),
            start == opposite(height),
            offset == position(start, step, n),
            !offset.nan() ==> offset.finite() && offset.val() >= -0x8_0000_0000_0000 * one_unit(),
            one_unit() > 0,
            shapes.len() == n,
            forall|k: nat| k < n ==> lt(#[trigger] position(start, step, k), width),
            forall|k: nat| k < n ==> #[trigger] shapes[k as int] == stripe(height, color, k),
        decreases 0x8_0000_0000_0100 - floor_units(offset),
    {
        proof {
            lemma_floor_at_most(offset, width);
        }
        shapes.push(
            VectorShape::Line {
                x1: offset,
                y1: top,
                x2: offset.plus(height),
                y2: height,
                width: line_width,
                color,
            },
        );
        let ghost was = offset;
        proof {
            lemma_step(offset, LINE_SPACING as int);
        }
        offset = offset.plus(step);
        proof {
            assert(offset.val() >= was.val() + one_unit() && offset.val() <= was.val() + 61 * one_unit())
                by (nonlinear_arith)
                requires
                    offset.val() >= was.val() + (LINE_SPACING - 1) * one_unit(),
                    offset.val() <= was.val() + (LINE_SPACING + 1) * one_unit(),
                    one_unit() > 0,
                    LINE_SPACING == 60,
            ;
            lemma_floor_grows(was, offset);
            n = n + 1;
        }
    }
    shapes
}

proof fn lemma_coverable_finite(side: Double)
    requires
        coverable(side),
    ensures
        !side.nan() ==> side.finite() && opposite(side).finite() && opposite(side).val() == -side.val(),
        side.nan() ==> opposite(side).nan(),
{
    if !side.nan() && !side.finite() {
        lemma_int_double_exact(0x8_0000_0000_0000);
        lemma_mag_ordered(int_double(0x8_0000_0000_0000).low(), side.low());
    }
}

impl DecorationPreset {
    /// The shapes of this preset for a canvas, in a color.
    pub fn shapes(self, width: Double, height: Double, color: Rgba) -> (res: Vec<VectorShape>)
        requires
            coverable(width),
            coverable(height),
        ensures
            match self {
                DecorationPreset::Dots => is_dot_grid(res@, width, height, color),
                DecorationPreset::DiagonalLines => is_stripes(res@, width, height, color),
            },
    {
        match self {
            DecorationPreset::Dots => dot_grid(width, height, color),
            DecorationPreset::DiagonalLines => diagonal_lines(width, height, color),
        }
    }
}

/// On a canvas without an extent no pattern has a shape.
pub proof fn law_empty_canvas_has_no_shapes(shapes: Seq<VectorShape>, color: Rgba)
    ensures
        is_dot_grid(shapes, int_double(0), int_double(0), color) ==> shapes.len() == 0,
        is_stripes(shapes, int_double(0), int_double(0), color) ==> shapes.len() == 0,
{
    let zero = int_double(0);
    lemma_int_double_exact(0);
    lemma_int_double_exact(20);
    lemma_pow2_pos(UNIT_EXP as nat);
    if is_dot_grid(shapes, zero, zero, color) {
        let start = int_double(DOT_SPACING / 2);
        let step = int_double(DOT_SPACING as int);
        let (columns, rows) = choose|columns: nat, rows: nat|
            #![trigger are_dots(shapes, color, columns, rows)]
            {
                &&& counts_below(start, step, zero, rows)
                &&& rows > 0 ==> counts_below(start, step, zero, columns)
                &&& are_dots(shapes, color, columns, rows)
            };
        if rows > 0 {
            assert(lt(position(start, step, 0), zero));
        }
        assert(columns * 0 == 0);
    }
    if is_stripes(shapes, zero, zero, color) && shapes.len() > 0 {
        assert(lt(position(opposite(zero), int_double(LINE_SPACING as int), 0), zero));
    }
}

} // verus!
