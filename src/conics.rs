use vstd::prelude::*;
use crate::canvas::{Canvas, paints, lemma_paints_copy};
use crate::marks::Brush;
use crate::circle::{circle_shape, draw_circle};
use crate::ellipse::{MAX_ELLIPSE_RADIUS, midpoint_shape, draw_ellipse};

verus! {

/// The points of an axis-aligned ellipse with radii `w` and `h` around
/// `(cx, cy)`: with equal radii those of the circle, else those of the
/// midpoint stepper.
pub open spec fn ellipse_shape(brush: Brush, cx: int, cy: int, w: int, h: int) -> Set<(int, int)> {
    if w == h {
        circle_shape(brush, cx, cy, w)
    } else {
        midpoint_shape(brush, cx, cy, w, h)
    }
}

/// Radii that the ellipse routines accept: non-negative, and where they
/// differ, at most `MAX_ELLIPSE_RADIUS`.
pub open spec fn ellipse_radii_ok(w: int, h: int) -> bool {
    &&& 0 <= w
    &&& 0 <= h
    &&& (w == h || (w <= MAX_ELLIPSE_RADIUS && h <= MAX_ELLIPSE_RADIUS))
}

fn draw_ellipse_shape<C: Copy>(
    canvas: &mut Canvas<C>,
    brush: Brush,
    center: (i32, i32),
    width_radius: i32,
    height_radius: i32,
    color: C,
)
    requires
        old(canvas).wf(),
        ellipse_radii_ok(width_radius as int, height_radius as int),
    ensures
        paints(
            old(canvas),
            final(canvas),
            ellipse_shape(brush, center.0 as int, center.1 as int, width_radius as int, height_radius as int),
            color,
        ),
{
    // The circle stepper is faster, and draws the same circle.
    if width_radius == height_radius {
        draw_circle(canvas, brush, center, width_radius, color);
    } else {
        draw_ellipse(canvas, brush, center, width_radius, height_radius, color);
    }
}

/// Draws the outline of an ellipse on `canvas`, clipped to its bounds.
pub fn draw_hollow_ellipse_mut<C: Copy>(
    canvas: &mut Canvas<C>,
    center: (i32, i32),
    width_radius: i32,
    height_radius: i32,
    color: C,
)
    requires
        old(canvas).wf(),
        ellipse_radii_ok(width_radius as int, height_radius as int),
    ensures
        paints(
            old(canvas),
            final(canvas),
            ellipse_shape(Brush::Outline, center.0 as int, center.1 as int, width_radius as int, height_radius as int),
            color,
        ),
{
    draw_ellipse_shape(canvas, Brush::Outline, center, width_radius, height_radius, color);
}

/// Draws an ellipse and its inside on `canvas`, clipped to its bounds.
pub fn draw_filled_ellipse_mut<C: Copy>(
    canvas: &mut Canvas<C>,
    center: (i32, i32),
    width_radius: i32,
    height_radius: i32,
    color: C,
)
    requires
        old(canvas).wf(),
        ellipse_radii_ok(width_radius as int, height_radius as int),
    ensures
        paints(
            old(canvas),
            final(canvas),
            ellipse_shape(Brush::Fill, center.0 as int, center.1 as int, width_radius as int, height_radius as int),
            color,
        ),
{
    draw_ellipse_shape(canvas, Brush::Fill, center, width_radius, height_radius, color);
}

/// A copy of `canvas` with the outline of an ellipse drawn on it.
pub fn draw_hollow_ellipse<C: Copy>(
    canvas: &Canvas<C>,
    center: (i32, i32),
    width_radius: i32,
    height_radius: i32,
    color: C,
) -> (r: Canvas<C>)
    requires
        canvas.wf(),
        ellipse_radii_ok(width_radius as int, height_radius as int),
    ensures
        paints(
            canvas,
            &r,
            ellipse_shape(Brush::Outline, center.0 as int, center.1 as int, width_radius as int, height_radius as int),
            color,
        ),
{
    let mut out = canvas.copy();
    let ghost copied = out;
    draw_hollow_ellipse_mut(&mut out, center, width_radius, height_radius, color);
    proof {
        lemma_paints_copy(canvas, &copied, &out, ellipse_shape(Brush::Outline, center.0 as int, center.1 as int, width_radius as int, height_radius as int), color);
    }
    out
}

/// A copy of `canvas` with an ellipse and its inside drawn on it.
pub fn draw_filled_ellipse<C: Copy>(
    canvas: &Canvas<C>,
    center: (i32, i32),
    width_radius: i32,
    height_radius: i32,
    color: C,
) -> (r: Canvas<C>)
    requires
        canvas.wf(),
        ellipse_radii_ok(width_radius as int, height_radius as int),
    ensures
        paints(
            canvas,
            &r,
            ellipse_shape(Brush::Fill, center.0 as int, center.1 as int, width_radius as int, height_radius as int),
            color,
        ),
{
    let mut out = canvas.copy();
    let ghost copied = out;
    draw_filled_ellipse_mut(&mut out, center, width_radius, height_radius, color);
    proof {
        lemma_paints_copy(canvas, &copied, &out, ellipse_shape(Brush::Fill, center.0 as int, center.1 as int, width_radius as int, height_radius as int), color);
    }
    out
}

/// Draws the outline of a circle on `canvas`, clipped to its bounds.
pub fn draw_hollow_circle_mut<C: Copy>(canvas: &mut Canvas<C>, center: (i32, i32), radius: i32, color: C)
    requires
        old(canvas).wf(),
        radius >= 0,
    ensures
        paints(old(canvas), final(canvas), circle_shape(Brush::Outline, center.0 as int, center.1 as int, radius as int), color),
{
    draw_circle(canvas, Brush::Outline, center, radius, color);
}

/// Draws a circle and its inside on `canvas`, clipped to its bounds.
pub fn draw_filled_circle_mut<C: Copy>(canvas: &mut Canvas<C>, center: (i32, i32), radius: i32, color: C)
    requires
        old(canvas).wf(),
        radius >= 0,
    ensures
        paints(old(canvas), final(canvas), circle_shape(Brush::Fill, center.0 as int, center.1 as int, radius as int), color),
{
    draw_circle(canvas, Brush::Fill, center, radius, color);
}

/// A copy of `canvas` with the outline of a circle drawn on it.
pub fn draw_hollow_circle<C: Copy>(canvas: &Canvas<C>, center: (i32, i32), radius: i32, color: C) -> (r: Canvas<C>)
    requires
        canvas.wf(),
        radius >= 0,
    ensures
        paints(canvas, &r, circle_shape(Brush::Outline, center.0 as int, center.1 as int, radius as int), color),
{
    let mut out = canvas.copy();
    let ghost copied = out;
    draw_hollow_circle_mut(&mut out, center, radius, color);
    proof {
        lemma_paints_copy(canvas, &copied, &out, circle_shape(Brush::Outline, center.0 as int, center.1 as int, radius as int), color);
    }
    out
}

/// A copy of `canvas` with a circle and its inside drawn on it.
pub fn draw_filled_circle<C: Copy>(canvas: &Canvas<C>, center: (i32, i32), radius: i32, color: C) -> (r: Canvas<C>)
    requires
        canvas.wf(),
        radius >= 0,
    ensures
        paints(canvas, &r, circle_shape(Brush::Fill, center.0 as int, center.1 as int, radius as int), color),
{
    let mut out = canvas.copy();
    let ghost copied = out;
    draw_filled_circle_mut(&mut out, center, radius, color);
    proof {
        lemma_paints_copy(canvas, &copied, &out, circle_shape(Brush::Fill, center.0 as int, center.1 as int, radius as int), color);
    }
    out
}

} // verus!
