use vstd::prelude::*;
use crate::canvas::{Canvas, paints, lemma_paints_union, lemma_paints_nothing};
use crate::marks::{Brush, marks, mark};

verus! {

/// Largest radius the ellipse stepper accepts on an axis, where the two radii differ.
pub const MAX_ELLIPSE_RADIUS: i32 = 32767;

/// Four times the decision value of the upper region at `(x, y)`: the sign of
/// the ellipse equation at the midpoint `(x + 1, y - 1/2)`.
pub open spec fn upper_decision(w: int, h: int, x: int, y: int) -> int {
    h * h * ((2 * x + 2) * (2 * x + 2)) + w * w * ((2 * y - 1) * (2 * y - 1)) - 4 * (w * w) * (h * h)
}

/// Four times the decision value of the side region at `(x, y)`: the sign of
/// the ellipse equation at the midpoint `(x + 1/2, y - 1)`.
pub open spec fn side_decision(w: int, h: int, x: int, y: int) -> int {
    h * h * ((2 * x + 1) * (2 * x + 1)) + 4 * (w * w) * ((y - 1) * (y - 1)) - 4 * (w * w) * (h * h)
}

/// One step in the upper region, where the outline is flatter than the
/// diagonal: move one column out, and one row in where the midpoint lies outside.
pub open spec fn upper_step(w: int, h: int, s: (int, int)) -> (int, int) {
    if upper_decision(w, h, s.0, s.1) < 0 {
        (s.0 + 1, s.1)
    } else {
        (s.0 + 1, s.1 - 1)
    }
}

/// One step in the side region, where the outline is steeper than the
/// diagonal: move one row in, and one column out where the midpoint lies inside.
pub open spec fn side_step(w: int, h: int, s: (int, int)) -> (int, int) {
    if side_decision(w, h, s.0, s.1) > 0 {
        (s.0, s.1 - 1)
    } else {
        (s.0 + 1, s.1 - 1)
    }
}

/// The upper region goes on while the slope is below one: `h²·x < w²·y`.
pub open spec fn upper_runs(w: int, h: int, s: (int, int)) -> bool {
    h * h * s.0 < w * w * s.1
}

/// The side region goes on while `y > 0`.
pub open spec fn side_runs(s: (int, int)) -> bool {
    s.1 > 0
}

/// The point reached after `k` steps in the upper region, from `(0, h)`.
pub open spec fn upper_state(w: int, h: int, k: nat) -> (int, int)
    decreases k,
{
    if k == 0 {
        (0, h)
    } else {
        upper_step(w, h, upper_state(w, h, (k - 1) as nat))
    }
}

pub open spec fn upper_stops_at(w: int, h: int, k: nat) -> bool {
    &&& forall|j: nat| j < k ==> upper_runs(w, h, #[trigger] upper_state(w, h, j))
    &&& !upper_runs(w, h, upper_state(w, h, k))
}

/// The number of steps taken in the upper region.
pub open spec fn upper_steps(w: int, h: int) -> nat {
    choose|k: nat| upper_stops_at(w, h, k)
}

/// The point reached after `k` steps in the side region, from where the upper region stopped.
pub open spec fn side_state(w: int, h: int, k: nat) -> (int, int)
    decreases k,
{
    if k == 0 {
        upper_state(w, h, upper_steps(w, h))
    } else {
        side_step(w, h, side_state(w, h, (k - 1) as nat))
    }
}

pub open spec fn side_stops_at(w: int, h: int, k: nat) -> bool {
    &&& forall|j: nat| j < k ==> side_runs(#[trigger] side_state(w, h, j))
    &&& !side_runs(side_state(w, h, k))
}

/// The number of steps taken in the side region.
pub open spec fn side_steps(w: int, h: int) -> nat {
    choose|k: nat| side_stops_at(w, h, k)
}

/// What `brush` renders for the first `n` points of the upper region.
pub open spec fn upper_cover(brush: Brush, cx: int, cy: int, w: int, h: int, n: nat) -> Set<(int, int)>
    decreases n,
{
    if n == 0 {
        Set::empty()
    } else {
        let s = upper_state(w, h, (n - 1) as nat);
        upper_cover(brush, cx, cy, w, h, (n - 1) as nat).union(marks(brush, cx, cy, s.0, s.1))
    }
}

/// What `brush` renders for the first `n` points of the side region.
pub open spec fn side_cover(brush: Brush, cx: int, cy: int, w: int, h: int, n: nat) -> Set<(int, int)>
    decreases n,
{
    if n == 0 {
        Set::empty()
    } else {
        let s = side_state(w, h, (n - 1) as nat);
        side_cover(brush, cx, cy, w, h, (n - 1) as nat).union(marks(brush, cx, cy, s.0, s.1))
    }
}

/// The points the midpoint stepper renders for an ellipse with radii `w`
/// and `h` around `(cx, cy)`: every point it reaches in both regions.
pub open spec fn midpoint_shape(brush: Brush, cx: int, cy: int, w: int, h: int) -> Set<(int, int)> {
    upper_cover(brush, cx, cy, w, h, upper_steps(w, h) + 1).union(
        side_cover(brush, cx, cy, w, h, side_steps(w, h) + 1),
    )
}

proof fn lemma_upper_stop_unique(w: int, h: int, k: nat)
    requires
        upper_stops_at(w, h, k),
    ensures
        upper_steps(w, h) == k,
{
    let c = upper_steps(w, h);
    assert(upper_stops_at(w, h, c));
    if c < k {
        assert(upper_runs(w, h, upper_state(w, h, c)));
    } else if c > k {
        assert(upper_runs(w, h, upper_state(w, h, k)));
    }
}

proof fn lemma_side_stop_unique(w: int, h: int, k: nat)
    requires
        side_stops_at(w, h, k),
    ensures
        side_steps(w, h) == k,
{
    let c = side_steps(w, h);
    assert(side_stops_at(w, h, c));
    if c < k {
        assert(side_runs(side_state(w, h, c)));
    } else if c > k {
        assert(side_runs(side_state(w, h, k)));
    }
}

proof fn lemma_upper_decision_step(w: int, h: int, x: int, y: int)
    ensures
        upper_decision(w, h, x + 1, y) == upper_decision(w, h, x, y) + 4 * (h * h + 2 * (h * h) * (x + 1)),
        upper_decision(w, h, x + 1, y - 1) == upper_decision(w, h, x, y) + 4 * (h * h + 2 * (h * h) * (x + 1) - 2 * (w * w) * (y - 1)),
{
    assert(upper_decision(w, h, x + 1, y) == upper_decision(w, h, x, y) + 4 * (h * h + 2 * (h * h) * (x + 1))) by (nonlinear_arith);
    assert(upper_decision(w, h, x + 1, y - 1) == upper_decision(w, h, x, y) + 4 * (h * h + 2 * (h * h) * (x + 1) - 2 * (w * w) * (y - 1))) by (nonlinear_arith);
}

proof fn lemma_side_decision_step(w: int, h: int, x: int, y: int)
    ensures
        side_decision(w, h, x, y - 1) == side_decision(w, h, x, y) + 4 * (w * w - 2 * (w * w) * (y - 1)),
        side_decision(w, h, x + 1, y - 1) == side_decision(w, h, x, y) + 4 * (w * w - 2 * (w * w) * (y - 1) + 2 * (h * h) * (x + 1)),
{
    assert(side_decision(w, h, x, y - 1) == side_decision(w, h, x, y) + 4 * (w * w - 2 * (w * w) * (y - 1))) by (nonlinear_arith);
    assert(side_decision(w, h, x + 1, y - 1) == side_decision(w, h, x, y) + 4 * (w * w - 2 * (w * w) * (y - 1) + 2 * (h * h) * (x + 1))) by (nonlinear_arith);
}

proof fn lemma_mul_bound(a: int, b: int, ma: int, mb: int)
    requires
        0 <= a <= ma,
        0 <= b <= mb,
    ensures
        0 <= a * b <= ma * mb,
{
    assert(0 <= a * b <= ma * mb) by (nonlinear_arith)
        requires
            0 <= a <= ma,
            0 <= b <= mb,
    ;
}

/// Bounds that keep the stepper's arithmetic within `i128`.
proof fn lemma_decision_bounds(w: int, h: int, x: int, y: int)
    requires
        0 <= w <= MAX_ELLIPSE_RADIUS,
        0 <= h <= MAX_ELLIPSE_RADIUS,
        0 <= x <= 0x400000000000,
        0 <= y <= MAX_ELLIPSE_RADIUS,
    ensures
        0 <= w * w <= 0x40000000,
        0 <= h * h <= 0x40000000,
        0 <= (2 * x + 1) * (2 * x + 1) <= 0x1000000000000000000000000,
        0 <= h * h * ((2 * x + 1) * (2 * x + 1)) <= 0x40000000000000000000000000000000,
        0 <= (y - 1) * (y - 1) <= 0x40000000,
        0 <= w * w * ((y - 1) * (y - 1)) <= 0x1000000000000000,
        0 <= (w * w) * (h * h) <= 0x1000000000000000,
        -0x1000000000000000000000 <= upper_decision(w, h, x, y) <= 0x41000000000000000000000000000000,
        -0x1000000000000000000000 <= side_decision(w, h, x, y) <= 0x41000000000000000000000000000000,
{
    lemma_mul_bound(w, w, 0x8000, 0x8000);
    lemma_mul_bound(h, h, 0x8000, 0x8000);
    lemma_mul_bound(2 * x + 1, 2 * x + 1, 0x1000000000000, 0x1000000000000);
    lemma_mul_bound(2 * x + 2, 2 * x + 2, 0x1000000000000, 0x1000000000000);
    lemma_mul_bound(h * h, (2 * x + 1) * (2 * x + 1), 0x40000000, 0x1000000000000000000000000);
    lemma_mul_bound(h * h, (2 * x + 2) * (2 * x + 2), 0x40000000, 0x1000000000000000000000000);
    assert((y - 1) * (y - 1) == (1 - y) * (1 - y)) by (nonlinear_arith);
    if y >= 1 {
        lemma_mul_bound(y - 1, y - 1, 0x8000, 0x8000);
    } else {
        lemma_mul_bound(1 - y, 1 - y, 0x8000, 0x8000);
    }
    assert((2 * y - 1) * (2 * y - 1) == (1 - 2 * y) * (1 - 2 * y)) by (nonlinear_arith);
    if y >= 1 {
        lemma_mul_bound(2 * y - 1, 2 * y - 1, 0x10000, 0x10000);
    } else {
        lemma_mul_bound(1 - 2 * y, 1 - 2 * y, 0x10000, 0x10000);
    }
    lemma_mul_bound(w * w, (y - 1) * (y - 1), 0x40000000, 0x40000000);
    lemma_mul_bound(w * w, (2 * y - 1) * (2 * y - 1), 0x40000000, 0x100000000);
    lemma_mul_bound(w * w, h * h, 0x40000000, 0x40000000);
    let (a, b, c) = (w * w, h * h, (y - 1) * (y - 1));
    assert(4 * a * b == 4 * (a * b)) by (nonlinear_arith);
    assert(4 * a * c == 4 * (a * c)) by (nonlinear_arith);
}

/// Runs the midpoint ellipse stepper for an ellipse with radii
/// `width_radius` and `height_radius` around `center`, rendering each point
/// it reaches with `brush`.
pub fn draw_ellipse<C: Copy>(
    canvas: &mut Canvas<C>,
    brush: Brush,
    center: (i32, i32),
    width_radius: i32,
    height_radius: i32,
    color: C,
)
    requires
        old(canvas).wf(),
        0 <= width_radius <= MAX_ELLIPSE_RADIUS,
        0 <= height_radius <= MAX_ELLIPSE_RADIUS,
    ensures
        paints(
            old(canvas),
            final(canvas),
            midpoint_shape(brush, center.0 as int, center.1 as int, width_radius as int, height_radius as int),
            color,
        ),
{
    let ghost start = *canvas;
    let ghost w = width_radius as int;
    let ghost h = height_radius as int;
    let x0 = center.0 as i128;
    let y0 = center.1 as i128;
    let wr = width_radius as i128;
    let hr = height_radius as i128;
    proof {
        lemma_decision_bounds(w, h, 0, h);
    }
    let w2 = wr * wr;
    let h2 = hr * hr;
    let mut x: i128 = 0;
    let mut y: i128 = hr;
    let mut px: i128 = 0;
    proof {
        lemma_mul_bound(w2 as int, h, 0x40000000, 0x8000);
        assert(2 * w2 * hr == 2 * (w2 * hr)) by (nonlinear_arith);
    }
    let mut py: i128 = 2 * w2 * y;
    proof {
        lemma_paints_nothing(&start, color);
        assert(upper_cover(brush, x0 as int, y0 as int, w, h, 0) =~= Set::empty());
    }
    mark(canvas, brush, x0, y0, x, y, color);
    proof {
        lemma_paints_union(&start, &start, canvas, Set::empty(), marks(brush, x0 as int, y0 as int, 0, h), color);
        assert(Set::<(int, int)>::empty().union(marks(brush, x0 as int, y0 as int, 0, h)) =~= upper_cover(brush, x0 as int, y0 as int, w, h, 1));
    }

    // Four times the decision value, so that it stays an exact integer.
    let mut p: i128 = 4 * (h2 - w2 * hr) + w2;
    let ghost mut k: nat = 0;
    proof {
        assert(p == upper_decision(w, h, 0, h)) by (nonlinear_arith)
            requires
                p == 4 * (h * h - w * w * h) + w * w,
        ;
    }
    while px < py
        invariant
            start.wf(),
            0 <= w <= MAX_ELLIPSE_RADIUS,
            0 <= h <= MAX_ELLIPSE_RADIUS,
            wr == w,
            hr == h,
            w2 == w * w,
            h2 == h * h,
            x0 == center.0,
            y0 == center.1,
            0 <= w2 <= 0x40000000,
            0 <= h2 <= 0x40000000,
            (x as int, y as int) == upper_state(w, h, k),
            forall|j: nat| j < k ==> upper_runs(w, h, #[trigger] upper_state(w, h, j)),
            0 <= x <= 0x200000000000,
            0 <= y <= h,
            px == 2 * h2 * x,
            py == 2 * w2 * y,
            p == upper_decision(w, h, x as int, y as int),
            paints(&start, canvas, upper_cover(brush, x0 as int, y0 as int, w, h, k + 1), color),
        decreases py - px + 2 * h2 + 2 * w2,
    {
        proof {
            assert(h2 * x < w2 * y) by (nonlinear_arith)
                requires
                    px == 2 * h2 * x,
                    py == 2 * w2 * y,
                    px < py,
            ;
            assert(y >= 1 && h2 >= 1 && x + 1 <= 0x200000000000) by (nonlinear_arith)
                requires
                    h2 * x < w2 * y,
                    0 <= x,
                    0 <= w2 <= 0x40000000,
                    h2 == h * h,
                    0 <= y <= h <= MAX_ELLIPSE_RADIUS,
            ;
            lemma_upper_decision_step(w, h, x as int, y as int);
            lemma_decision_bounds(w, h, x + 1, y as int);
            lemma_decision_bounds(w, h, x + 1, y - 1);
            lemma_mul_bound(h2 as int, x + 1, 0x40000000, 0x200000000000);
            lemma_mul_bound(w2 as int, y as int, 0x40000000, 0x8000);
            assert(2 * h2 * (x + 1) == 2 * h2 * x + 2 * h2) by (nonlinear_arith);
            assert(2 * w2 * (y - 1) == 2 * w2 * y - 2 * w2) by (nonlinear_arith);
            assert(2 * h2 * (x + 1) == 2 * (h2 * (x + 1))) by (nonlinear_arith);
            assert(2 * w2 * y == 2 * (w2 * y)) by (nonlinear_arith);
        }
        let ghost before = *canvas;
        x += 1;
        px += 2 * h2;
        if p < 0 {
            p += 4 * (h2 + px);
        } else {
            y -= 1;
            py -= 2 * w2;
            p += 4 * (h2 + px - py);
        }
        proof {
            k = k + 1;
        }
        mark(canvas, brush, x0, y0, x, y, color);
        proof {
            lemma_paints_union(&start, &before, canvas, upper_cover(brush, x0 as int, y0 as int, w, h, k), marks(brush, x0 as int, y0 as int, x as int, y as int), color);
        }
    }
    proof {
        assert(!(h2 * x < w2 * y)) by (nonlinear_arith)
            requires
                px == 2 * h2 * x,
                py == 2 * w2 * y,
                px >= py,
        ;
        lemma_upper_stop_unique(w, h, k);
        lemma_decision_bounds(w, h, x as int, y as int);
    }
    let ghost upper = upper_cover(brush, x0 as int, y0 as int, w, h, k + 1);
    proof {
        assert(side_state(w, h, 0) == upper_state(w, h, k));
        assert(side_cover(brush, x0 as int, y0 as int, w, h, 0) =~= Set::empty());
        assert(side_cover(brush, x0 as int, y0 as int, w, h, 1) =~= marks(brush, x0 as int, y0 as int, x as int, y as int));
        assert(upper.union(side_cover(brush, x0 as int, y0 as int, w, h, 1)) =~= upper);
    }

    p = h2 * ((2 * x + 1) * (2 * x + 1)) + 4 * (w2 * ((y - 1) * (y - 1))) - 4 * (w2 * h2);
    let ghost mut m: nat = 0;
    proof {
        let (a, b, c) = (w * w, h * h, (y - 1) * (y - 1));
        assert(4 * a * b == 4 * (a * b)) by (nonlinear_arith);
        assert(4 * a * c == 4 * (a * c)) by (nonlinear_arith);
    }
    while y > 0
        invariant
            start.wf(),
            0 <= w <= MAX_ELLIPSE_RADIUS,
            0 <= h <= MAX_ELLIPSE_RADIUS,
            wr == w,
            hr == h,
            w2 == w * w,
            h2 == h * h,
            x0 == center.0,
            y0 == center.1,
            0 <= w2 <= 0x40000000,
            0 <= h2 <= 0x40000000,
            (x as int, y as int) == side_state(w, h, m),
            forall|j: nat| j < m ==> side_runs(#[trigger] side_state(w, h, j)),
            0 <= x <= 0x200000000000 + h - y,
            0 <= y <= h,
            px == 2 * h2 * x,
            py == 2 * w2 * y,
            p == side_decision(w, h, x as int, y as int),
            paints(&start, canvas, upper.union(side_cover(brush, x0 as int, y0 as int, w, h, m + 1)), color),
        decreases y,
    {
        proof {
            lemma_side_decision_step(w, h, x as int, y as int);
            lemma_decision_bounds(w, h, x as int, y - 1);
            lemma_decision_bounds(w, h, x + 1, y - 1);
            lemma_mul_bound(h2 as int, x + 1, 0x40000000, 0x400000000000);
            lemma_mul_bound(w2 as int, y as int, 0x40000000, 0x8000);
            assert(2 * h2 * (x + 1) == 2 * h2 * x + 2 * h2) by (nonlinear_arith);
            assert(2 * w2 * (y - 1) == 2 * w2 * y - 2 * w2) by (nonlinear_arith);
            assert(2 * h2 * (x + 1) == 2 * (h2 * (x + 1))) by (nonlinear_arith);
            assert(2 * w2 * y == 2 * (w2 * y)) by (nonlinear_arith);
        }
        let ghost before = *canvas;
        y -= 1;
        py -= 2 * w2;
        if p > 0 {
            p += 4 * (w2 - py);
        } else {
            x += 1;
            px += 2 * h2;
            p += 4 * (w2 - py + px);
        }
        proof {
            m = m + 1;
        }
        mark(canvas, brush, x0, y0, x, y, color);
        proof {
            let prev = side_cover(brush, x0 as int, y0 as int, w, h, m);
            let here = marks(brush, x0 as int, y0 as int, x as int, y as int);
            lemma_paints_union(&start, &before, canvas, upper.union(prev), here, color);
            assert(upper.union(prev).union(here) =~= upper.union(side_cover(brush, x0 as int, y0 as int, w, h, m + 1)));
        }
    }
    proof {
        lemma_side_stop_unique(w, h, m);
    }
}

} // verus!
