use vstd::prelude::*;
use crate::canvas::{Canvas, paints, lemma_paints_union, lemma_paints_nothing};
use crate::marks::{Brush, marks, mark};

verus! {

/// One step of the circle stepper on the state `(x, y, err)`: move one row
/// outward, and one column inward where the error term says so.
pub open spec fn circle_step(s: (int, int, int)) -> (int, int, int) {
    let y = s.1 + 1;
    let err = s.2 + 1 + 2 * y;
    if 2 * (err - s.0) + 1 > 0 {
        (s.0 - 1, y, err + 1 - 2 * (s.0 - 1))
    } else {
        (s.0, y, err)
    }
}

/// The stepper's state after `k` steps, starting from `(radius, 0, 0)`.
pub open spec fn circle_state(radius: int, k: nat) -> (int, int, int)
    decreases k,
{
    if k == 0 {
        (radius, 0, 0)
    } else {
        circle_step(circle_state(radius, (k - 1) as nat))
    }
}

/// The stepper renders a state, and goes on, while `x >= y`.
pub open spec fn circle_runs(s: (int, int, int)) -> bool {
    s.0 >= s.1
}

/// The stepper renders exactly the states before `k`, and stops at state `k`.
pub open spec fn circle_stops_at(radius: int, k: nat) -> bool {
    &&& forall|j: nat| j < k ==> circle_runs(#[trigger] circle_state(radius, j))
    &&& !circle_runs(circle_state(radius, k))
}

/// The number of states the stepper renders.
pub open spec fn circle_steps(radius: int) -> nat {
    choose|k: nat| circle_stops_at(radius, k)
}

/// What the stepper renders for one state: the point and its mirror image
/// across the diagonal, each with `brush`.
pub open spec fn octant_marks(brush: Brush, cx: int, cy: int, s: (int, int, int)) -> Set<(int, int)> {
    marks(brush, cx, cy, s.0, s.1).union(marks(brush, cx, cy, s.1, s.0))
}

/// What the stepper renders for its first `n` states.
pub open spec fn circle_cover(brush: Brush, cx: int, cy: int, radius: int, n: nat) -> Set<(int, int)>
    decreases n,
{
    if n == 0 {
        Set::empty()
    } else {
        circle_cover(brush, cx, cy, radius, (n - 1) as nat).union(
            octant_marks(brush, cx, cy, circle_state(radius, (n - 1) as nat)),
        )
    }
}

/// The points of a circle of `radius` around `(cx, cy)`: its outline for
/// `Brush::Outline`, the outline with its inside for `Brush::Fill`.
pub open spec fn circle_shape(brush: Brush, cx: int, cy: int, radius: int) -> Set<(int, int)> {
    circle_cover(brush, cx, cy, radius, circle_steps(radius))
}

/// The stepper stops at one place only.
pub proof fn lemma_circle_stop_unique(radius: int, k: nat)
    requires
        circle_stops_at(radius, k),
    ensures
        circle_steps(radius) == k,
{
    let c = circle_steps(radius);
    assert(circle_stops_at(radius, c));
    if c < k {
        assert(circle_runs(circle_state(radius, c)));
    } else if c > k {
        assert(circle_runs(circle_state(radius, k)));
    }
}

/// What holds of every state that follows running states: `y` counts the
/// steps, `x` never grows, `y` stays within two of `x`, and the error term
/// tracks `x² - 2x + y² + 2y - radius² + 2·radius`.
pub proof fn lemma_circle_state(radius: int, k: nat)
    requires
        radius >= 0,
        forall|j: nat| j < k ==> circle_runs(#[trigger] circle_state(radius, j)),
    ensures
        circle_state(radius, k).1 == k,
        circle_state(radius, k).0 <= radius,
        circle_state(radius, k).1 <= circle_state(radius, k).0 + 2,
        circle_state(radius, k).2 == circle_state(radius, k).0 * circle_state(radius, k).0 - 2
            * circle_state(radius, k).0 + circle_state(radius, k).1 * circle_state(radius, k).1 + 2
            * circle_state(radius, k).1 - radius * radius + 2 * radius,
    decreases k,
{
    if k > 0 {
        let p = (k - 1) as nat;
        lemma_circle_state(radius, p);
        assert(circle_runs(circle_state(radius, p)));
        let (x, y, e) = circle_state(radius, p);
        assert((y + 1) * (y + 1) == y * y + 2 * y + 1) by (nonlinear_arith);
        assert((x - 1) * (x - 1) == x * x - 2 * x + 1) by (nonlinear_arith);
    }
}

/// Bounds that keep the stepper's arithmetic within `i128`.
proof fn lemma_circle_bounds(radius: int, x: int, y: int, e: int)
    requires
        0 <= radius <= i32::MAX,
        x <= radius,
        0 <= y <= x + 2,
        e == x * x - 2 * x + y * y + 2 * y - radius * radius + 2 * radius,
    ensures
        -0x1000000000000000000 <= e <= 0x1000000000000000000,
{
    assert(0 <= x * x <= 0x100000000000000000) by (nonlinear_arith)
        requires
            -2 <= x <= radius,
            radius <= i32::MAX,
    ;
    assert(0 <= y * y <= 0x100000000000000000) by (nonlinear_arith)
        requires
            0 <= y <= radius + 2,
            radius <= i32::MAX,
    ;
    assert(0 <= radius * radius <= 0x100000000000000000) by (nonlinear_arith)
        requires
            0 <= radius <= i32::MAX,
    ;
}

/// Runs the circle stepper for a circle of `radius` around `center`,
/// rendering each state with `brush`.
pub fn draw_circle<C: Copy>(canvas: &mut Canvas<C>, brush: Brush, center: (i32, i32), radius: i32, color: C)
    requires
        old(canvas).wf(),
        radius >= 0,
    ensures
        paints(old(canvas), final(canvas), circle_shape(brush, center.0 as int, center.1 as int, radius as int), color),
{
    let ghost start = *canvas;
    let ghost r = radius as int;
    let cx = center.0 as i128;
    let cy = center.1 as i128;
    let mut x: i128 = radius as i128;
    let mut y: i128 = 0;
    let mut err: i128 = 0;
    let ghost mut k: nat = 0;
    proof {
        lemma_paints_nothing(&start, color);
    }
    while x >= y
        invariant
            start.wf(),
            0 <= r <= i32::MAX,
            cx == center.0,
            cy == center.1,
            (x as int, y as int, err as int) == circle_state(r, k),
            forall|j: nat| j < k ==> circle_runs(#[trigger] circle_state(r, j)),
            paints(&start, canvas, circle_cover(brush, cx as int, cy as int, r, k), color),
        decreases x - y + 2,
    {
        proof {
            lemma_circle_state(r, k);
            lemma_circle_bounds(r, x as int, y as int, err as int);
        }
        let ghost c0 = *canvas;
        mark(canvas, brush, cx, cy, x, y, color);
        let ghost c1 = *canvas;
        mark(canvas, brush, cx, cy, y, x, color);
        proof {
            lemma_paints_union(&c0, &c1, canvas, marks(brush, cx as int, cy as int, x as int, y as int), marks(brush, cx as int, cy as int, y as int, x as int), color);
            lemma_paints_union(&start, &c0, canvas, circle_cover(brush, cx as int, cy as int, r, k), octant_marks(brush, cx as int, cy as int, circle_state(r, k)), color);
        }
        y += 1;
        err += 1 + 2 * y;
        if 2 * (err - x) + 1 > 0 {
            x -= 1;
            err += 1 - 2 * x;
        }
        proof {
            k = k + 1;
        }
    }
    proof {
        lemma_circle_stop_unique(r, k);
    }
}

} // verus!
