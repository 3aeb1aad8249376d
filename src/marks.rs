use vstd::prelude::*;
use crate::canvas::{Canvas, paints, span, draw_if_in_bounds, draw_span, lemma_paints_union};

verus! {

/// How a stepper renders each point `(x, y)` it reaches relative to a center:
/// as the four mirrored points, or as the two mirrored rows between them.
#[derive(Clone, Copy, PartialEq, Eq, Debug)]
pub enum Brush {
    Outline,
    Fill,
}

/// Bound on the magnitude of the coordinates handed to `mark`.
pub open spec fn coord_limit() -> int {
    0x10000000000000000000000000
}

/// The points `(cx ± x, cy ± y)`.
pub open spec fn quad(cx: int, cy: int, x: int, y: int) -> Set<(int, int)> {
    set![(cx + x, cy + y), (cx - x, cy + y), (cx + x, cy - y), (cx - x, cy - y)]
}

/// The rows `cy + y` and `cy - y`, each from column `cx - x` to column `cx + x`.
pub open spec fn row_pair(cx: int, cy: int, x: int, y: int) -> Set<(int, int)> {
    span(cy + y, cx - x, cx + x).union(span(cy - y, cx - x, cx + x))
}

/// What `brush` renders for the point `(x, y)` relative to the center `(cx, cy)`.
pub open spec fn marks(brush: Brush, cx: int, cy: int, x: int, y: int) -> Set<(int, int)> {
    match brush {
        Brush::Outline => quad(cx, cy, x, y),
        Brush::Fill => row_pair(cx, cy, x, y),
    }
}

/// Renders the point `(x, y)` relative to the center `(cx, cy)` with `brush`.
pub fn mark<C: Copy>(canvas: &mut Canvas<C>, brush: Brush, cx: i128, cy: i128, x: i128, y: i128, color: C)
    requires
        old(canvas).wf(),
        -coord_limit() <= cx <= coord_limit(),
        -coord_limit() <= cy <= coord_limit(),
        -coord_limit() <= x <= coord_limit(),
        -coord_limit() <= y <= coord_limit(),
    ensures
        paints(old(canvas), final(canvas), marks(brush, cx as int, cy as int, x as int, y as int), color),
{
    let ghost c0 = *canvas;
    match brush {
        Brush::Outline => {
            draw_if_in_bounds(canvas, cx + x, cy + y, color);
            let ghost c1 = *canvas;
            draw_if_in_bounds(canvas, cx - x, cy + y, color);
            proof {
                lemma_paints_union(&c0, &c1, canvas, set![((cx + x) as int, (cy + y) as int)], set![((cx - x) as int, (cy + y) as int)], color);
            }
            let ghost c2 = *canvas;
            draw_if_in_bounds(canvas, cx + x, cy - y, color);
            proof {
                lemma_paints_union(&c0, &c2, canvas, set![((cx + x) as int, (cy + y) as int)].union(set![((cx - x) as int, (cy + y) as int)]), set![((cx + x) as int, (cy - y) as int)], color);
            }
            let ghost c3 = *canvas;
            draw_if_in_bounds(canvas, cx - x, cy - y, color);
            proof {
                lemma_paints_union(&c0, &c3, canvas, set![((cx + x) as int, (cy + y) as int)].union(set![((cx - x) as int, (cy + y) as int)]).union(set![((cx + x) as int, (cy - y) as int)]), set![((cx - x) as int, (cy - y) as int)], color);
                assert(set![((cx + x) as int, (cy + y) as int)].union(set![((cx - x) as int, (cy + y) as int)]).union(set![((cx + x) as int, (cy - y) as int)]).union(set![((cx - x) as int, (cy - y) as int)]) =~= quad(cx as int, cy as int, x as int, y as int));
            }
        },
        Brush::Fill => {
            draw_span(canvas, cy + y, cx - x, cx + x, color);
            let ghost c1 = *canvas;
            draw_span(canvas, cy - y, cx - x, cx + x, color);
            proof {
                lemma_paints_union(&c0, &c1, canvas, span((cy + y) as int, (cx - x) as int, (cx + x) as int), span((cy - y) as int, (cx - x) as int, (cx + x) as int), color);
            }
        },
    }
}

} // verus!
