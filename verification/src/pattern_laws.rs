//! What the preset patterns promise: dots on an even grid and lines at an even
//! distance, straight along the diagonal.
use crate::arith_laws::lemma_int_double_exact;
use crate::decoration::{dot, position, stripe, LINE_SPACING};
use crate::double::{one_unit, opposite, sum, Double, UNIT_EXP};
use crate::model::{Rgba, VectorShape};
use crate::near_laws::{lemma_sum_exact, lemma_sum_near};
use crate::preset_laws::gap;
use crate::whole::int_double;
use vstd::arithmetic::power2::*;
use vstd::prelude::*;

verus! {

/// Positions in steps of a whole number are where they should be.
proof fn lemma_positions(start: int, step: int, k: nat)
    requires
        1 <= start <= 100,
        1 <= step <= 100,
        k <= 0x1_0000_0000,
    ensures
        position(int_double(start), int_double(step), k).finite(),
        position(int_double(start), int_double(step), k).val() == (start + step * k) * one_unit(),
    decreases k,
{
    let u = one_unit() as int;
    let n = start + step * k;
    lemma_pow2_pos(UNIT_EXP as nat);
    assert(0 <= step * k <= 100 * 0x1_0000_0000) by (nonlinear_arith)
        requires
            0 <= step <= 100,
            0 <= k <= 0x1_0000_0000,
    ;
    lemma_int_double_exact(start);
    lemma_int_double_exact(step);
    lemma_int_double_exact(n);
    if k > 0 {
        let m = start + step * (k - 1);
        lemma_positions(start, step, (k - 1) as nat);
        assert(m * u + step * u == n * u) by (nonlinear_arith)
            requires
                m == start + step * (k - 1),
                n == start + step * k,
        ;
        lemma_sum_exact(
            position(int_double(start), int_double(step), (k - 1) as nat),
            int_double(step),
            int_double(n),
        );
    } else {
        assert(step * 0 == 0);
    }
}

/// The dots stand on an even grid: forty pixels from one to the next, in rows
/// and in columns, and half of that from the canvas' edges.
pub proof fn law_dots_stand_on_an_even_grid(color: Rgba, column: nat, row: nat)
    requires
        column <= 0x1_0000_0000,
        row <= 0x1_0000_0000,
    ensures
        dot(color, column, row) matches VectorShape::Circle { cx, cy, color: c, .. } && {
            &&& cx.val() == (20 + 40 * column) * one_unit()
            &&& cy.val() == (20 + 40 * row) * one_unit()
            &&& c == color
        },
{
    lemma_positions(20, 40, column);
    lemma_positions(20, 40, row);
}

/// A line runs along the diagonal, from the upper edge to the lower one, as far
/// to the side as down; the next line is a step to the right.
pub proof fn law_lines_run_along_the_diagonal(height: Double, color: Rgba, k: nat)
    requires
        height.finite(),
        position(opposite(height), int_double(LINE_SPACING as int), k).finite(),
        sum(position(opposite(height), int_double(LINE_SPACING as int), k), height).finite(),
        position(opposite(height), int_double(LINE_SPACING as int), k + 1).finite(),
    ensures
        stripe(height, color, k) matches VectorShape::Line { x1, y1, x2, y2, color: c, .. } && {
            &&& y1 == int_double(0)
            &&& y2 == height
            &&& 0x20_0000_0000_0000 * gap(x2.val() - x1.val(), height.val()) <= gap(x1.val() + height.val(), 0)
            &&& c == color
            &&& k == 0 ==> x1.val() == -height.val()
            &&& stripe(height, color, k + 1) matches VectorShape::Line { x1: next, .. } && 0x20_0000_0000_0000 * gap(
                next.val() - x1.val(),
                60 * one_unit() as int,
            ) <= gap(x1.val() + 60 * one_unit(), 0)
        },
{
    let step = int_double(LINE_SPACING as int);
    let at = position(opposite(height), step, k);
    lemma_int_double_exact(60);
    lemma_sum_near(at, height);
    lemma_sum_near(at, step);
    assert(opposite(height).val() == -height.val());
}

} // verus!
