use vstd::prelude::*;
use crate::canvas::{Canvas, paints, span};
use crate::marks::{Brush, marks, quad, row_pair};
use crate::circle::{
    circle_shape, circle_cover, circle_state, circle_steps, circle_stops_at, circle_runs,
    octant_marks, lemma_circle_stop_unique, lemma_circle_state,
};
use crate::ellipse::{
    midpoint_shape, upper_cover, side_cover, upper_steps, side_steps, upper_state, side_state,
    upper_runs, side_runs, upper_stops_at, side_stops_at, upper_step, side_step,
};
use crate::conics::ellipse_shape;

verus! {

/// Whether `s` is its own mirror image across the column `cx` and across the row `cy`.
pub open spec fn mirror_symmetric(s: Set<(int, int)>, cx: int, cy: int) -> bool {
    forall|p: (int, int)| #[trigger] s.contains(p) ==> s.contains((2 * cx - p.0, p.1)) && s.contains((p.0, 2 * cy - p.1))
}

proof fn lemma_marks_symmetric(brush: Brush, cx: int, cy: int, x: int, y: int)
    ensures
        mirror_symmetric(marks(brush, cx, cy, x, y), cx, cy),
{
    let s = marks(brush, cx, cy, x, y);
    assert forall|p: (int, int)| #[trigger] s.contains(p) implies s.contains((2 * cx - p.0, p.1)) && s.contains((p.0, 2 * cy - p.1)) by {
        match brush {
            Brush::Outline => {},
            Brush::Fill => {
                assert(span(cy + y, cx - x, cx + x).contains(p) ==> span(cy - y, cx - x, cx + x).contains((p.0, 2 * cy - p.1)));
                assert(span(cy - y, cx - x, cx + x).contains(p) ==> span(cy + y, cx - x, cx + x).contains((p.0, 2 * cy - p.1)));
            },
        }
    }
}

proof fn lemma_union_symmetric(s: Set<(int, int)>, t: Set<(int, int)>, cx: int, cy: int)
    requires
        mirror_symmetric(s, cx, cy),
        mirror_symmetric(t, cx, cy),
    ensures
        mirror_symmetric(s.union(t), cx, cy),
{
    assert forall|p: (int, int)| #[trigger] s.union(t).contains(p) implies s.union(t).contains((2 * cx - p.0, p.1)) && s.union(t).contains((p.0, 2 * cy - p.1)) by {
        if s.contains(p) {
        } else {
            assert(t.contains(p));
        }
    }
}

proof fn lemma_circle_cover_symmetric(brush: Brush, cx: int, cy: int, r: int, n: nat)
    ensures
        mirror_symmetric(circle_cover(brush, cx, cy, r, n), cx, cy),
    decreases n,
{
    if n > 0 {
        let s = circle_state(r, (n - 1) as nat);
        lemma_circle_cover_symmetric(brush, cx, cy, r, (n - 1) as nat);
        lemma_marks_symmetric(brush, cx, cy, s.0, s.1);
        lemma_marks_symmetric(brush, cx, cy, s.1, s.0);
        lemma_union_symmetric(marks(brush, cx, cy, s.0, s.1), marks(brush, cx, cy, s.1, s.0), cx, cy);
        lemma_union_symmetric(circle_cover(brush, cx, cy, r, (n - 1) as nat), octant_marks(brush, cx, cy, s), cx, cy);
    }
}

proof fn lemma_upper_cover_symmetric(brush: Brush, cx: int, cy: int, w: int, h: int, n: nat)
    ensures
        mirror_symmetric(upper_cover(brush, cx, cy, w, h, n), cx, cy),
    decreases n,
{
    if n > 0 {
        let s = crate::ellipse::upper_state(w, h, (n - 1) as nat);
        lemma_upper_cover_symmetric(brush, cx, cy, w, h, (n - 1) as nat);
        lemma_marks_symmetric(brush, cx, cy, s.0, s.1);
        lemma_union_symmetric(upper_cover(brush, cx, cy, w, h, (n - 1) as nat), marks(brush, cx, cy, s.0, s.1), cx, cy);
    }
}

proof fn lemma_side_cover_symmetric(brush: Brush, cx: int, cy: int, w: int, h: int, n: nat)
    ensures
        mirror_symmetric(side_cover(brush, cx, cy, w, h, n), cx, cy),
    decreases n,
{
    if n > 0 {
        let s = crate::ellipse::side_state(w, h, (n - 1) as nat);
        lemma_side_cover_symmetric(brush, cx, cy, w, h, (n - 1) as nat);
        lemma_marks_symmetric(brush, cx, cy, s.0, s.1);
        lemma_union_symmetric(side_cover(brush, cx, cy, w, h, (n - 1) as nat), marks(brush, cx, cy, s.0, s.1), cx, cy);
    }
}

/// A circle, hollow or filled, is its own mirror image across the vertical
/// and the horizontal line through its center.
pub proof fn lemma_circle_symmetric(brush: Brush, cx: int, cy: int, radius: int)
    ensures
        mirror_symmetric(circle_shape(brush, cx, cy, radius), cx, cy),
{
    lemma_circle_cover_symmetric(brush, cx, cy, radius, circle_steps(radius));
}

/// An ellipse, hollow or filled, is its own mirror image across the vertical
/// and the horizontal line through its center.
pub proof fn lemma_ellipse_symmetric(brush: Brush, cx: int, cy: int, width_radius: int, height_radius: int)
    ensures
        mirror_symmetric(ellipse_shape(brush, cx, cy, width_radius, height_radius), cx, cy),
{
    let (w, h) = (width_radius, height_radius);
    if w == h {
        lemma_circle_symmetric(brush, cx, cy, w);
    } else {
        lemma_upper_cover_symmetric(brush, cx, cy, w, h, upper_steps(w, h) + 1);
        lemma_side_cover_symmetric(brush, cx, cy, w, h, side_steps(w, h) + 1);
        lemma_union_symmetric(upper_cover(brush, cx, cy, w, h, upper_steps(w, h) + 1), side_cover(brush, cx, cy, w, h, side_steps(w, h) + 1), cx, cy);
    }
}

/// An ellipse whose radii are equal is the circle of that radius.
pub proof fn lemma_ellipse_with_equal_radii(brush: Brush, cx: int, cy: int, radius: int)
    ensures
        ellipse_shape(brush, cx, cy, radius, radius) == circle_shape(brush, cx, cy, radius),
{
}

/// Two canvases painted from one canvas with one set in one color hold the same pixels.
pub proof fn lemma_paints_same<C: Copy>(before: &Canvas<C>, a: &Canvas<C>, b: &Canvas<C>, s: Set<(int, int)>, color: C)
    requires
        paints(before, a, s, color),
        paints(before, b, s, color),
    ensures
        a.same_pixels(b),
{
    assert forall|x: int, y: int| #[trigger] a.contains(x, y) implies a.at(x, y) == b.at(x, y) by {
        assert(b.contains(x, y));
    }
}

/// Drawing an ellipse whose radii are both `radius` gives, pixel for pixel,
/// what drawing the circle of that radius gives, on any canvas.
pub proof fn lemma_equal_radii_draw_circle<C: Copy>(
    before: &Canvas<C>,
    as_ellipse: &Canvas<C>,
    as_circle: &Canvas<C>,
    brush: Brush,
    cx: int,
    cy: int,
    radius: int,
    color: C,
)
    requires
        paints(before, as_ellipse, ellipse_shape(brush, cx, cy, radius, radius), color),
        paints(before, as_circle, circle_shape(brush, cx, cy, radius), color),
    ensures
        as_ellipse.same_pixels(as_circle),
{
    lemma_paints_same(before, as_ellipse, as_circle, circle_shape(brush, cx, cy, radius), color);
}

/// A circle of radius zero, hollow or filled, is its center alone; so is an
/// ellipse whose radii are both zero.
pub proof fn lemma_zero_radius(brush: Brush, cx: int, cy: int)
    ensures
        circle_shape(brush, cx, cy, 0) == set![(cx, cy)],
        ellipse_shape(brush, cx, cy, 0, 0) == set![(cx, cy)],
{
    assert(circle_state(0, 0) == (0int, 0int, 0int));
    assert(circle_state(0, 1) == (-1int, 1int, 6int));
    assert(circle_stops_at(0, 1)) by {
        assert forall|j: nat| j < 1 implies circle_runs(#[trigger] circle_state(0, j)) by {
            assert(j == 0);
        }
    }
    lemma_circle_stop_unique(0, 1);
    assert(circle_cover(brush, cx, cy, 0, 0) =~= Set::empty());
    assert(span(cy, cx, cx) =~= set![(cx, cy)]);
    assert(quad(cx, cy, 0, 0) =~= set![(cx, cy)]);
    assert(row_pair(cx, cy, 0, 0) =~= set![(cx, cy)]);
    assert(circle_cover(brush, cx, cy, 0, 1) =~= set![(cx, cy)]);
}

/// The circle stepper stops, at the place that `circle_steps` names.
pub proof fn lemma_circle_stops(radius: int)
    requires
        radius >= 0,
    ensures
        circle_stops_at(radius, circle_steps(radius)),
{
    assert forall|j: nat| j < 0 implies circle_runs(#[trigger] circle_state(radius, j)) by {}
    lemma_circle_stops_from(radius, 0);
}

proof fn lemma_circle_stops_from(radius: int, k: nat)
    requires
        radius >= 0,
        forall|j: nat| j < k ==> circle_runs(#[trigger] circle_state(radius, j)),
    ensures
        exists|n: nat| circle_stops_at(radius, n),
    decreases circle_state(radius, k).0 - circle_state(radius, k).1 + 2,
{
    lemma_circle_state(radius, k);
    if circle_runs(circle_state(radius, k)) {
        assert forall|j: nat| j < k + 1 implies circle_runs(#[trigger] circle_state(radius, j)) by {
            if j < k {
            } else {
                assert(j == k);
            }
        }
        assert(circle_state(radius, k + 1) == crate::circle::circle_step(circle_state(radius, k)));
        lemma_circle_stops_from(radius, k + 1);
    } else {
        assert(circle_stops_at(radius, k));
    }
}

/// Every state that the circle stepper renders lies within the circle:
/// `x² + y² <= radius² + radius`, with `x >= y >= 0`.
proof fn lemma_circle_state_inside(radius: int, k: nat)
    requires
        radius >= 0,
        forall|j: nat| j <= k ==> circle_runs(#[trigger] circle_state(radius, j)),
    ensures
        circle_state(radius, k).1 >= 0,
        circle_state(radius, k).0 >= circle_state(radius, k).1,
        circle_state(radius, k).0 * circle_state(radius, k).0 + circle_state(radius, k).1 * circle_state(
            radius,
            k,
        ).1 <= radius * radius + radius,
    decreases k,
{
    lemma_circle_state(radius, k);
    assert(circle_runs(circle_state(radius, k)));
    if k == 0 {
        assert(radius * radius >= 0) by (nonlinear_arith);
    } else {
        let q = (k - 1) as nat;
        assert forall|j: nat| j <= q implies circle_runs(#[trigger] circle_state(radius, j)) by {
            assert(j <= k);
        }
        lemma_circle_state_inside(radius, q);
        lemma_circle_state(radius, q);
        let (xp, yp, ep) = circle_state(radius, q);
        let (x, y, e) = circle_state(radius, k);
        assert(circle_state(radius, k) == crate::circle::circle_step(circle_state(radius, q)));
        if x == xp {
            assert(x * x + y * y <= radius * radius + radius);
        } else {
            assert((xp - 1) * (xp - 1) == xp * xp - 2 * xp + 1) by (nonlinear_arith);
            assert((yp + 1) * (yp + 1) == yp * yp + 2 * yp + 1) by (nonlinear_arith);
        }
    }
}

proof fn lemma_mark_inside(brush: Brush, cx: int, cy: int, a: int, b: int, p: (int, int), bound: int)
    requires
        a >= 0,
        b >= 0,
        a * a + b * b <= bound,
        marks(brush, cx, cy, a, b).contains(p),
    ensures
        (p.0 - cx) * (p.0 - cx) + (p.1 - cy) * (p.1 - cy) <= bound,
{
    let (dx, dy) = (p.0 - cx, p.1 - cy);
    assert(-a <= dx <= a);
    assert(dy == b || dy == -b);
    assert(dx * dx <= a * a) by (nonlinear_arith)
        requires
            -a <= dx <= a,
    ;
    assert(dy * dy == b * b) by (nonlinear_arith)
        requires
            dy == b || dy == -b,
    ;
}

proof fn lemma_circle_cover_inside(brush: Brush, cx: int, cy: int, radius: int, n: nat, p: (int, int))
    requires
        radius >= 0,
        forall|j: nat| j < n ==> circle_runs(#[trigger] circle_state(radius, j)),
        circle_cover(brush, cx, cy, radius, n).contains(p),
    ensures
        (p.0 - cx) * (p.0 - cx) + (p.1 - cy) * (p.1 - cy) <= radius * radius + radius,
    decreases n,
{
    let q = (n - 1) as nat;
    if circle_cover(brush, cx, cy, radius, q).contains(p) {
        lemma_circle_cover_inside(brush, cx, cy, radius, q, p);
    } else {
        assert forall|j: nat| j <= q implies circle_runs(#[trigger] circle_state(radius, j)) by {
            assert(j < n);
        }
        lemma_circle_state_inside(radius, q);
        let (x, y, e) = circle_state(radius, q);
        if marks(brush, cx, cy, x, y).contains(p) {
            lemma_mark_inside(brush, cx, cy, x, y, p, radius * radius + radius);
        } else {
            lemma_mark_inside(brush, cx, cy, y, x, p, radius * radius + radius);
        }
    }
}

/// Every point of a circle, hollow or filled, lies on or inside it:
/// `dx² + dy² <= radius² + radius` relative to its center.
pub proof fn lemma_circle_inside(brush: Brush, cx: int, cy: int, radius: int, p: (int, int))
    requires
        radius >= 0,
        circle_shape(brush, cx, cy, radius).contains(p),
    ensures
        (p.0 - cx) * (p.0 - cx) + (p.1 - cy) * (p.1 - cy) <= radius * radius + radius,
{
    lemma_circle_stops(radius);
    lemma_circle_cover_inside(brush, cx, cy, radius, circle_steps(radius), p);
}

/// Drawing a set of points none of which lies on the canvas changes no pixel.
pub proof fn lemma_off_canvas_unchanged<C: Copy>(before: &Canvas<C>, after: &Canvas<C>, s: Set<(int, int)>, color: C)
    requires
        paints(before, after, s, color),
        forall|p: (int, int)| #[trigger] s.contains(p) ==> !before.contains(p.0, p.1),
    ensures
        after.same_pixels(before),
{
    assert forall|x: int, y: int| #[trigger] after.contains(x, y) implies after.at(x, y) == before.at(x, y) by {
        assert(before.contains(x, y));
        if s.contains((x, y)) {
            assert(!before.contains(x, y));
        }
    }
}

/// Drawing a circle whose bounding square lies wholly beside, above or below
/// the canvas changes no pixel.
pub proof fn lemma_circle_off_canvas<C: Copy>(
    before: &Canvas<C>,
    after: &Canvas<C>,
    brush: Brush,
    cx: int,
    cy: int,
    radius: int,
    color: C,
)
    requires
        radius >= 0,
        paints(before, after, circle_shape(brush, cx, cy, radius), color),
        cx + radius < 0 || cy + radius < 0 || cx - radius >= before.spec_width() || cy - radius
            >= before.spec_height(),
    ensures
        after.same_pixels(before),
{
    let s = circle_shape(brush, cx, cy, radius);
    assert forall|p: (int, int)| #[trigger] s.contains(p) implies !before.contains(p.0, p.1) by {
        lemma_circle_inside(brush, cx, cy, radius, p);
        let (dx, dy) = (p.0 - cx, p.1 - cy);
        assert(-radius <= dx <= radius && -radius <= dy <= radius) by (nonlinear_arith)
            requires
                dx * dx + dy * dy <= radius * radius + radius,
                radius >= 0,
        ;
    }
    lemma_off_canvas_unchanged(before, after, s, color);
}

/// Every point the upper region reaches lies between row `0` and row `h`, right of column `0`.
proof fn lemma_upper_state_rows(w: int, h: int, k: nat)
    requires
        0 <= w,
        0 <= h,
        forall|j: nat| j < k ==> upper_runs(w, h, #[trigger] upper_state(w, h, j)),
    ensures
        0 <= upper_state(w, h, k).0,
        0 <= upper_state(w, h, k).1 <= h,
    decreases k,
{
    if k > 0 {
        let q = (k - 1) as nat;
        lemma_upper_state_rows(w, h, q);
        let (x, y) = upper_state(w, h, q);
        assert(upper_runs(w, h, upper_state(w, h, q)));
        assert(y >= 1) by (nonlinear_arith)
            requires
                h * h * x < w * w * y,
                0 <= x,
        ;
        assert(upper_state(w, h, k) == upper_step(w, h, upper_state(w, h, q)));
    }
}

proof fn lemma_upper_stops_from(w: int, h: int, k: nat)
    requires
        0 <= w,
        0 <= h,
        forall|j: nat| j < k ==> upper_runs(w, h, #[trigger] upper_state(w, h, j)),
    ensures
        exists|n: nat| upper_stops_at(w, h, n),
    decreases w * w * upper_state(w, h, k).1 - h * h * upper_state(w, h, k).0 + w * w + h * h,
{
    lemma_upper_state_rows(w, h, k);
    let (x, y) = upper_state(w, h, k);
    if upper_runs(w, h, upper_state(w, h, k)) {
        assert forall|j: nat| j < k + 1 implies upper_runs(w, h, #[trigger] upper_state(w, h, j)) by {
            if j < k {
            } else {
                assert(j == k);
            }
        }
        assert(upper_state(w, h, k + 1) == upper_step(w, h, upper_state(w, h, k)));
        let (x1, y1) = upper_state(w, h, k + 1);
        assert(h * h >= 1) by (nonlinear_arith)
            requires
                h * h * x < w * w * y,
                0 <= x,
                0 <= y <= h,
        ;
        assert(w * w * y1 - h * h * x1 < w * w * y - h * h * x) by (nonlinear_arith)
            requires
                x1 == x + 1,
                y1 == y || y1 == y - 1,
                h * h >= 1,
        ;
        assert(w * w * y1 - h * h * x1 + w * w + h * h >= 0) by (nonlinear_arith)
            requires
                x1 == x + 1,
                y1 == y || y1 == y - 1,
                h * h * x < w * w * y,
        ;
        lemma_upper_stops_from(w, h, k + 1);
    } else {
        assert(upper_stops_at(w, h, k));
    }
}

/// Every point the side region reaches lies between row `0` and row `h`,
/// right of column `0`.
proof fn lemma_side_state_rows(w: int, h: int, k: nat)
    requires
        0 <= w,
        0 <= h,
        forall|j: nat| j < k ==> side_runs(#[trigger] side_state(w, h, j)),
    ensures
        0 <= side_state(w, h, k).0,
        0 <= side_state(w, h, k).1 <= h,
    decreases k,
{
    if k == 0 {
        assert forall|j: nat| j < 0 implies upper_runs(w, h, #[trigger] upper_state(w, h, j)) by {}
        lemma_upper_stops_from(w, h, 0);
        lemma_upper_state_rows(w, h, upper_steps(w, h));
    } else {
        let q = (k - 1) as nat;
        lemma_side_state_rows(w, h, q);
        assert(side_runs(side_state(w, h, q)));
        assert(side_state(w, h, k) == side_step(w, h, side_state(w, h, q)));
    }
}

proof fn lemma_side_stops_from(w: int, h: int, k: nat)
    requires
        0 <= w,
        0 <= h,
        forall|j: nat| j < k ==> side_runs(#[trigger] side_state(w, h, j)),
    ensures
        exists|n: nat| side_stops_at(w, h, n),
    decreases side_state(w, h, k).1,
{
    lemma_side_state_rows(w, h, k);
    if side_runs(side_state(w, h, k)) {
        assert forall|j: nat| j < k + 1 implies side_runs(#[trigger] side_state(w, h, j)) by {
            if j < k {
            } else {
                assert(j == k);
            }
        }
        assert(side_state(w, h, k + 1) == side_step(w, h, side_state(w, h, k)));
        lemma_side_stops_from(w, h, k + 1);
    } else {
        assert(side_stops_at(w, h, k));
    }
}

proof fn lemma_mark_rows(brush: Brush, cx: int, cy: int, x: int, y: int, h: int, p: (int, int))
    requires
        0 <= y <= h,
        marks(brush, cx, cy, x, y).contains(p),
    ensures
        cy - h <= p.1 <= cy + h,
{
}

proof fn lemma_upper_cover_rows(brush: Brush, cx: int, cy: int, w: int, h: int, n: nat, p: (int, int))
    requires
        0 <= w,
        0 <= h,
        n <= upper_steps(w, h) + 1,
        upper_stops_at(w, h, upper_steps(w, h)),
        upper_cover(brush, cx, cy, w, h, n).contains(p),
    ensures
        cy - h <= p.1 <= cy + h,
    decreases n,
{
    let q = (n - 1) as nat;
    if upper_cover(brush, cx, cy, w, h, q).contains(p) {
        lemma_upper_cover_rows(brush, cx, cy, w, h, q, p);
    } else {
        assert forall|j: nat| j < q implies upper_runs(w, h, #[trigger] upper_state(w, h, j)) by {
            assert(j < upper_steps(w, h));
        }
        lemma_upper_state_rows(w, h, q);
        let s = upper_state(w, h, q);
        lemma_mark_rows(brush, cx, cy, s.0, s.1, h, p);
    }
}

proof fn lemma_side_cover_rows(brush: Brush, cx: int, cy: int, w: int, h: int, n: nat, p: (int, int))
    requires
        0 <= w,
        0 <= h,
        n <= side_steps(w, h) + 1,
        side_stops_at(w, h, side_steps(w, h)),
        side_cover(brush, cx, cy, w, h, n).contains(p),
    ensures
        cy - h <= p.1 <= cy + h,
    decreases n,
{
    let q = (n - 1) as nat;
    if side_cover(brush, cx, cy, w, h, q).contains(p) {
        lemma_side_cover_rows(brush, cx, cy, w, h, q, p);
    } else {
        assert forall|j: nat| j < q implies side_runs(#[trigger] side_state(w, h, j)) by {
            assert(j < side_steps(w, h));
        }
        lemma_side_state_rows(w, h, q);
        let s = side_state(w, h, q);
        lemma_mark_rows(brush, cx, cy, s.0, s.1, h, p);
    }
}

/// Every point of an ellipse, hollow or filled, lies within `height_radius`
/// rows of its center.
pub proof fn lemma_ellipse_rows(brush: Brush, cx: int, cy: int, width_radius: int, height_radius: int, p: (int, int))
    requires
        0 <= width_radius,
        0 <= height_radius,
        ellipse_shape(brush, cx, cy, width_radius, height_radius).contains(p),
    ensures
        cy - height_radius <= p.1 <= cy + height_radius,
{
    let (w, h) = (width_radius, height_radius);
    if w == h {
        lemma_circle_inside(brush, cx, cy, h, p);
        let (dx, dy) = (p.0 - cx, p.1 - cy);
        assert(-h <= dy <= h) by (nonlinear_arith)
            requires
                dx * dx + dy * dy <= h * h + h,
                h >= 0,
        ;
    } else {
        assert forall|j: nat| j < 0 implies upper_runs(w, h, #[trigger] upper_state(w, h, j)) by {}
        lemma_upper_stops_from(w, h, 0);
        assert forall|j: nat| j < 0 implies side_runs(#[trigger] side_state(w, h, j)) by {}
        lemma_side_stops_from(w, h, 0);
        if upper_cover(brush, cx, cy, w, h, upper_steps(w, h) + 1).contains(p) {
            lemma_upper_cover_rows(brush, cx, cy, w, h, upper_steps(w, h) + 1, p);
        } else {
            lemma_side_cover_rows(brush, cx, cy, w, h, side_steps(w, h) + 1, p);
        }
    }
}

/// Drawing an ellipse that lies wholly above or below the canvas changes no pixel.
pub proof fn lemma_ellipse_off_canvas_rows<C: Copy>(
    before: &Canvas<C>,
    after: &Canvas<C>,
    brush: Brush,
    cx: int,
    cy: int,
    width_radius: int,
    height_radius: int,
    color: C,
)
    requires
        0 <= width_radius,
        0 <= height_radius,
        paints(before, after, ellipse_shape(brush, cx, cy, width_radius, height_radius), color),
        cy + height_radius < 0 || cy - height_radius >= before.spec_height(),
    ensures
        after.same_pixels(before),
{
    let s = ellipse_shape(brush, cx, cy, width_radius, height_radius);
    assert forall|p: (int, int)| #[trigger] s.contains(p) implies !before.contains(p.0, p.1) by {
        lemma_ellipse_rows(brush, cx, cy, width_radius, height_radius, p);
    }
    lemma_off_canvas_unchanged(before, after, s, color);
}

} // verus!
