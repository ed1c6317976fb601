//! Alignment guides for dragging in free positioning.
use crate::double::{diff, quot, sum, Double};
use crate::order::{le, lt, magnitude};
use crate::whole::int_double;
use vstd::prelude::*;

verus! {

/// An upright box in document space.
#[derive(Clone, Copy, Debug, PartialEq)]
pub struct Rect {
    pub x: Double,
    pub y: Double,
    pub width: Double,
    pub height: Double,
}

/// An alignment line to draw.
#[derive(Clone, Copy, Debug, PartialEq)]
pub enum Guide {
    Vertical(Double),
    Horizontal(Double),
}

#[derive(Debug, PartialEq)]
pub struct SnapResult {
    pub x: Double,
    pub y: Double,
    pub guides: Vec<Guide>,
}

/// The two edges and the middle of an extent.
pub open spec fn features(start: Double, extent: Double) -> Seq<Double> {
    seq![start, sum(start, extent), sum(start, quot(extent, int_double(2)))]
}

/// The edges and the middle of the canvas.
pub open spec fn canvas_targets(extent: Double) -> Seq<Double> {
    seq![int_double(0), extent, quot(extent, int_double(2))]
}

/// What can be snapped to along one axis: the canvas, then each other box.
pub open spec fn targets(others: Seq<Rect>, extent: Double, across: bool) -> Seq<Double>
    decreases others.len(),
{
    if others.len() == 0 {
        canvas_targets(extent)
    } else {
        let o = others.last();
        targets(others.drop_last(), extent, across) + if across {
            features(o.x, o.width)
        } else {
            features(o.y, o.height)
        }
    }
}

/// How far a feature is from a target.
pub open spec fn gap(feature: Double, target: Double) -> Double {
    magnitude(diff(feature, target))
}

/// The better one of what was found so far and another pair: the pair if it is
/// within the threshold and closer.
pub open spec fn better(best: Option<(Double, Double)>, feature: Double, target: Double, threshold: Double) -> Option<(Double, Double)> {
    let d = gap(feature, target);
    if le(d, threshold) && (best matches Some(pair) ==> lt(d, gap(pair.0, pair.1))) {
        Some((feature, target))
    } else {
        best
    }
}

/// The closest pair within the threshold among the first `i` features with
/// every target and the next feature with the first `j` targets; of equally
/// close ones the first.
pub open spec fn closest(fs: Seq<Double>, ts: Seq<Double>, threshold: Double, i: nat, j: nat) -> Option<(Double, Double)>
    decreases i, j,
{
    if j > 0 {
        better(closest(fs, ts, threshold, i, (j - 1) as nat), fs[i as int], ts[j - 1], threshold)
    } else if i > 0 {
        closest(fs, ts, threshold, (i - 1) as nat, ts.len())
    } else {
        None
    }
}

/// The closest pair within the threshold, if any.
pub open spec fn snap_pair(fs: Seq<Double>, ts: Seq<Double>, threshold: Double) -> Option<(Double, Double)> {
    closest(fs, ts, threshold, fs.len(), 0)
}

/// A start shifted so that the feature meets the target.
pub open spec fn snapped_start(start: Double, pair: Option<(Double, Double)>) -> Double {
    match pair {
        Some((feature, target)) => sum(start, diff(target, feature)),
        None => start,
    }
}

fn best_snap(fs: &Vec<Double>, ts: &Vec<Double>, threshold: Double) -> (res: Option<(Double, Double)>)
    ensures
        res == snap_pair(fs@, ts@, threshold),
{
    let mut best: Option<(Double, Double)> = None;
    let mut i: usize = 0;
    while i < fs.len()
        invariant
            i <= fs.len(),
            best == closest(fs@, ts@, threshold, i as nat, 0),
        decreases fs.len() - i,
    {
        let mut j: usize = 0;
        while j < ts.len()
            invariant
                i < fs.len(),
                j <= ts.len(),
                best == closest(fs@, ts@, threshold, i as nat, j as nat),
            decreases ts.len() - j,
        {
            let distance = fs[i].minus(ts[j]).abs();
            let closer: bool = match best {
                Some(pair) => distance.less(pair.0.minus(pair.1).abs()),
                None => true,
            };
            if distance.at_most(threshold) && closer {
                best = Some((fs[i], ts[j]));
            }
            j = j + 1;
        }
        i = i + 1;
    }
    best
}

fn features_of(start: Double, extent: Double) -> (res: Vec<Double>)
    ensures
        res@ == features(start, extent),
{
    let middle = start.plus(extent.over(Double::from_int(2)));
    let res: Vec<Double> = vec![start, start.plus(extent), middle];
    proof {
        assert(res@ =~= features(start, extent));
    }
    res
}

fn targets_of(others: &[Rect], extent: Double, across: bool) -> (res: Vec<Double>)
    ensures
        res@ == targets(others@, extent, across),
{
    let mut res: Vec<Double> = vec![Double::zero(), extent, extent.over(Double::from_int(2))];
    let mut i: usize = 0;
    proof {
        assert(res@ =~= targets(others@.take(0), extent, across));
    }
    while i < others.len()
        invariant
            i <= others.len(),
            res@ == targets(others@.take(i as int), extent, across),
        decreases others.len() - i,
    {
        let o = others[i];
        proof {
            assert(others@.take(i + 1).drop_last() =~= others@.take(i as int));
            assert(others@.take(i + 1).last() == others@[i as int]);
        }
        let mut more = if across {
            features_of(o.x, o.width)
        } else {
            features_of(o.y, o.height)
        };
        res.append(&mut more);
        i = i + 1;
    }
    proof {
        assert(others@.take(i as int) =~= others@);
    }
    res
}

/// The guides of the pairs that were found.
pub open spec fn guides_for(x_pair: Option<(Double, Double)>, y_pair: Option<(Double, Double)>) -> Seq<Guide> {
    let vertical = match x_pair {
        Some((_, target)) => seq![Guide::Vertical(target)],
        None => Seq::empty(),
    };
    match y_pair {
        Some((_, target)) => vertical.push(Guide::Horizontal(target)),
        None => vertical,
    }
}

/// Snaps a box to the closest edge or middle of the canvas and the other
/// boxes, each axis on its own, wherever one is within the threshold.
pub fn snap_position(moving: Rect, others: &[Rect], canvas_width: Double, canvas_height: Double, threshold: Double) -> (res: SnapResult)
    ensures
        ({
            let x_pair = snap_pair(
                features(moving.x, moving.width),
                targets(others@, canvas_width, true),
                threshold,
            );
            let y_pair = snap_pair(
                features(moving.y, moving.height),
                targets(others@, canvas_height, false),
                threshold,
            );
            &&& res.x == snapped_start(moving.x, x_pair)
            &&& res.y == snapped_start(moving.y, y_pair)
            &&& res.guides@ == guides_for(x_pair, y_pair)
        }),
{
    let x_pair = best_snap(
        &features_of(moving.x, moving.width),
        &targets_of(others, canvas_width, true),
        threshold,
    );
    let y_pair = best_snap(
        &features_of(moving.y, moving.height),
        &targets_of(others, canvas_height, false),
        threshold,
    );
    let mut guides: Vec<Guide> = Vec::new();
    let x = match x_pair {
        Some((feature, target)) => {
            guides.push(Guide::Vertical(target));
            moving.x.plus(target.minus(feature))
        },
        None => moving.x,
    };
    let y = match y_pair {
        Some((feature, target)) => {
            guides.push(Guide::Horizontal(target));
            moving.y.plus(target.minus(feature))
        },
        None => moving.y,
    };
    proof {
        assert(guides@ =~= guides_for(x_pair, y_pair));
    }
    SnapResult { x, y, guides }
}

proof fn lemma_closest(fs: Seq<Double>, ts: Seq<Double>, threshold: Double, i: nat, j: nat)
    requires
        i <= fs.len(),
        j <= ts.len(),
        j > 0 ==> i < fs.len(),
    ensures
        match closest(fs, ts, threshold, i, j) {
            Some((f, t)) => {
                &&& le(gap(f, t), threshold)
                &&& fs.contains(f)
                &&& ts.contains(t)
                &&& forall|a: int, b: int|
                    0 <= a < fs.len() && 0 <= b < ts.len() && (a < i || (a == i && b < j)) && le(
                        #[trigger] gap(fs[a], ts[b]),
                        threshold,
                    ) ==> le(gap(f, t), gap(fs[a], ts[b]))
            },
            None => forall|a: int, b: int|
                0 <= a < fs.len() && 0 <= b < ts.len() && (a < i || (a == i && b < j)) ==> !le(
                    #[trigger] gap(fs[a], ts[b]),
                    threshold,
                ),
        },
    decreases i, j,
{
    if j > 0 {
        lemma_closest(fs, ts, threshold, i, (j - 1) as nat);
        assert(fs.contains(fs[i as int]));
        assert(ts.contains(ts[j - 1]));
    } else if i > 0 {
        lemma_closest_row(fs, ts, threshold, (i - 1) as nat, ts.len());
    }
}

proof fn lemma_closest_row(fs: Seq<Double>, ts: Seq<Double>, threshold: Double, i: nat, j: nat)
    requires
        i < fs.len(),
        j <= ts.len(),
    ensures
        match closest(fs, ts, threshold, i, j) {
            Some((f, t)) => {
                &&& le(gap(f, t), threshold)
                &&& fs.contains(f)
                &&& ts.contains(t)
                &&& forall|a: int, b: int|
                    0 <= a < fs.len() && 0 <= b < ts.len() && (a < i || (a == i && b < j)) && le(
                        #[trigger] gap(fs[a], ts[b]),
                        threshold,
                    ) ==> le(gap(f, t), gap(fs[a], ts[b]))
            },
            None => forall|a: int, b: int|
                0 <= a < fs.len() && 0 <= b < ts.len() && (a < i || (a == i && b < j)) ==> !le(
                    #[trigger] gap(fs[a], ts[b]),
                    threshold,
                ),
        },
    decreases i, j + 1,
{
    lemma_closest(fs, ts, threshold, i, j);
}

/// What is snapped to is within the threshold, and no pair within the
/// threshold is closer. Nothing is snapped to only if no pair is within it.
pub proof fn law_snap_takes_the_closest(fs: Seq<Double>, ts: Seq<Double>, threshold: Double)
    ensures
        match snap_pair(fs, ts, threshold) {
            Some((f, t)) => {
                &&& le(gap(f, t), threshold)
                &&& fs.contains(f)
                &&& ts.contains(t)
                &&& forall|a: int, b: int|
                    0 <= a < fs.len() && 0 <= b < ts.len() && le(#[trigger] gap(fs[a], ts[b]), threshold) ==> le(
                        gap(f, t),
                        gap(fs[a], ts[b]),
                    )
            },
            None => forall|a: int, b: int|
                0 <= a < fs.len() && 0 <= b < ts.len() ==> !le(#[trigger] gap(fs[a], ts[b]), threshold),
        },
{
    lemma_closest(fs, ts, threshold, fs.len(), 0);
}

/// There is at most one guide for each axis, and without one the box stays
/// where it is on that axis.
pub proof fn law_at_most_one_guide_per_axis(start: Double, x_pair: Option<(Double, Double)>, y_pair: Option<(Double, Double)>)
    ensures
        guides_for(x_pair, y_pair).len() <= 2,
        forall|i: int, j: int|
            0 <= i < j < guides_for(x_pair, y_pair).len() ==> (#[trigger] guides_for(x_pair, y_pair)[i]) is Vertical
                && (#[trigger] guides_for(x_pair, y_pair)[j]) is Horizontal,
        x_pair is None ==> snapped_start(start, x_pair) == start,
{
}

} // verus!
