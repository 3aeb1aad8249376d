use vstd::prelude::*;

verus! {

/// A rectangular grid of pixels, stored row by row.
pub struct Canvas<C> {
    width: u32,
    height: u32,
    pixels: Vec<C>,
}

/// Whether `(x, y)` addresses a pixel of a `width` by `height` grid.
pub open spec fn in_bounds(width: nat, height: nat, x: int, y: int) -> bool {
    0 <= x < width && 0 <= y < height
}

proof fn lemma_index_in_range(width: int, height: int, x: int, y: int)
    requires
        0 <= x < width,
        0 <= y < height,
    ensures
        0 <= y * width + x < width * height,
{
    assert(0 <= y * width + x < width * height) by (nonlinear_arith)
        requires
            0 <= x < width,
            0 <= y < height,
    ;
}

proof fn lemma_rows_apart(width: int, a: int, b: int, x: int, y: int)
    requires
        0 <= a < width,
        0 <= x < width,
        b != y,
    ensures
        b * width + a != y * width + x,
{
    if b < y {
        assert(b * width + a < y * width + x) by (nonlinear_arith)
            requires
                0 <= a < width,
                0 <= x,
                b < y,
        ;
    } else {
        assert(b * width + a > y * width + x) by (nonlinear_arith)
            requires
                0 <= x < width,
                0 <= a,
                b > y,
        ;
    }
}

impl<C: Copy> Canvas<C> {
    pub closed spec fn spec_width(&self) -> nat {
        self.width as nat
    }

    pub closed spec fn spec_height(&self) -> nat {
        self.height as nat
    }

    /// The pixel at `(x, y)`; meaningful where `(x, y)` is in bounds.
    pub closed spec fn at(&self, x: int, y: int) -> C {
        self.pixels@[y * self.width + x]
    }

    pub closed spec fn wf(&self) -> bool {
        self.pixels@.len() == self.width * self.height
    }

    /// Whether `(x, y)` lies on this canvas.
    pub open spec fn contains(&self, x: int, y: int) -> bool {
        in_bounds(self.spec_width(), self.spec_height(), x, y)
    }

    /// Whether two canvases have the same size and the same pixels.
    pub open spec fn same_pixels(&self, other: &Canvas<C>) -> bool {
        &&& self.spec_width() == other.spec_width()
        &&& self.spec_height() == other.spec_height()
        &&& forall|x: int, y: int| #[trigger] self.contains(x, y) ==> self.at(x, y) == other.at(x, y)
    }

    pub fn width(&self) -> (r: u32)
        ensures
            r == self.spec_width(),
    {
        self.width
    }

    pub fn height(&self) -> (r: u32)
        ensures
            r == self.spec_height(),
    {
        self.height
    }

    /// The pixel at `(x, y)`.
    pub fn get_pixel(&self, x: u32, y: u32) -> (r: C)
        requires
            self.wf(),
            self.contains(x as int, y as int),
        ensures
            r == self.at(x as int, y as int),
    {
        let len = self.pixels.len();
        proof {
            lemma_index_in_range(self.width as int, self.height as int, x as int, y as int);
            assert(y * self.width + x < len);
        }
        self.pixels[y as usize * self.width as usize + x as usize]
    }

    /// Sets the pixel at `(x, y)` to `color`.
    pub fn put_pixel(&mut self, x: u32, y: u32, color: C)
        requires
            old(self).wf(),
            old(self).contains(x as int, y as int),
        ensures
            paints(old(self), final(self), set![(x as int, y as int)], color),
    {
        let len = self.pixels.len();
        proof {
            lemma_index_in_range(self.width as int, self.height as int, x as int, y as int);
            assert(y * self.width + x < len);
        }
        let i = y as usize * self.width as usize + x as usize;
        self.pixels.set(i, color);
        proof {
            let w = self.width as int;
            assert forall|a: int, b: int| #[trigger] self.contains(a, b) implies self.at(a, b)
                == if set![(x as int, y as int)].contains((a, b)) {
                color
            } else {
                old(self).at(a, b)
            } by {
                lemma_index_in_range(w, self.height as int, a, b);
                if b != y {
                    lemma_rows_apart(w, a, b, x as int, y as int);
                }
            }
        }
    }

    /// A canvas of the given size holding `pixels` row by row, or `None`
    /// where their number is not `width * height`.
    pub fn from_pixels(width: u32, height: u32, pixels: Vec<C>) -> (r: Option<Canvas<C>>)
        ensures
            r is Some <==> pixels@.len() == width * height,
            r matches Some(c) ==> {
                &&& c.wf()
                &&& c.spec_width() == width
                &&& c.spec_height() == height
                &&& forall|x: int, y: int| #[trigger]
                    c.contains(x, y) ==> c.at(x, y) == pixels@[y * width + x]
            },
    {
        assert((width as u64) * (height as u64) <= u64::MAX) by (nonlinear_arith)
            requires
                width <= u32::MAX,
                height <= u32::MAX,
        ;
        if (pixels.len() as u128) == ((width as u64) * (height as u64)) as u128 {
            Some(Canvas { width, height, pixels })
        } else {
            None
        }
    }

    /// A new canvas with the same size and pixels as this one.
    pub fn copy(&self) -> (r: Canvas<C>)
        requires
            self.wf(),
        ensures
            r.wf(),
            r.same_pixels(self),
    {
        let mut pixels: Vec<C> = Vec::new();
        let n = self.pixels.len();
        let mut i: usize = 0;
        while i < n
            invariant
                n == self.pixels@.len(),
                i <= n,
                pixels@ == self.pixels@.subrange(0, i as int),
            decreases n - i,
        {
            pixels.push(self.pixels[i]);
            i = i + 1;
        }
        assert(pixels@ == self.pixels@);
        Canvas { width: self.width, height: self.height, pixels }
    }

    /// A canvas of the given size with every pixel set to `fill`.
    pub fn new(width: u32, height: u32, fill: C) -> (r: Canvas<C>)
        requires
            width * height <= usize::MAX,
        ensures
            r.wf(),
            r.spec_width() == width,
            r.spec_height() == height,
            forall|x: int, y: int| #[trigger] r.contains(x, y) ==> r.at(x, y) == fill,
    {
        let n = width as usize * height as usize;
        let mut pixels: Vec<C> = Vec::new();
        let mut i: usize = 0;
        while i < n
            invariant
                i <= n,
                pixels@.len() == i,
                forall|j: int| 0 <= j < i ==> pixels@[j] == fill,
            decreases n - i,
        {
            pixels.push(fill);
            i = i + 1;
        }
        let r = Canvas { width, height, pixels };
        assert forall|x: int, y: int| #[trigger] r.contains(x, y) implies r.at(x, y) == fill by {
            lemma_index_in_range(width as int, height as int, x, y);
        }
        r
    }
}

/// Whether `after` is `before` with exactly the in-bounds points of `shape` set to `color`.
pub open spec fn paints<C: Copy>(before: &Canvas<C>, after: &Canvas<C>, shape: Set<(int, int)>, color: C) -> bool {
    &&& after.wf()
    &&& after.spec_width() == before.spec_width()
    &&& after.spec_height() == before.spec_height()
    &&& forall|x: int, y: int| #[trigger]
        after.contains(x, y) ==> after.at(x, y) == if shape.contains((x, y)) {
            color
        } else {
            before.at(x, y)
        }
}

/// The points of row `y` from column `x_from` to column `x_to`, both included.
pub open spec fn span(y: int, x_from: int, x_to: int) -> Set<(int, int)> {
    Set::new(|p: (int, int)| p.1 == y && x_from <= p.0 <= x_to)
}

/// Sets the pixel at `(x, y)` to `color` where it lies on the canvas; elsewhere does nothing.
pub fn draw_if_in_bounds<C: Copy>(canvas: &mut Canvas<C>, x: i128, y: i128, color: C)
    requires
        old(canvas).wf(),
    ensures
        paints(old(canvas), final(canvas), set![(x as int, y as int)], color),
{
    if 0 <= x && x < canvas.width() as i128 && 0 <= y && y < canvas.height() as i128 {
        canvas.put_pixel(x as u32, y as u32, color);
    } else {
        proof {
            assert forall|a: int, b: int| #[trigger] canvas.contains(a, b) implies !set![
                (x as int, y as int),
            ].contains((a, b)) by {}
        }
    }
}

/// Sets every pixel of row `y` from column `x_from` to column `x_to`, both
/// included, to `color`, as far as the row lies on the canvas.
pub fn draw_span<C: Copy>(canvas: &mut Canvas<C>, y: i128, x_from: i128, x_to: i128, color: C)
    requires
        old(canvas).wf(),
    ensures
        paints(old(canvas), final(canvas), span(y as int, x_from as int, x_to as int), color),
{
    let ghost start = *canvas;
    let w = canvas.width() as i128;
    if y < 0 || y >= canvas.height() as i128 || x_to < 0 || x_from >= w || x_from > x_to {
        proof {
            assert forall|a: int, b: int| #[trigger] canvas.contains(a, b) implies !span(
                y as int,
                x_from as int,
                x_to as int,
            ).contains((a, b)) by {}
        }
        return;
    }
    let lo: i128 = if x_from < 0 { 0 } else { x_from };
    let hi: i128 = if x_to >= w { w - 1 } else { x_to };
    let mut px: i128 = lo;
    proof {
        lemma_paints_nothing(&start, color);
    }
    while px <= hi
        invariant
            start.wf(),
            0 <= lo <= px <= hi + 1,
            hi < w == start.spec_width(),
            0 <= y < start.spec_height(),
            paints(&start, canvas, span(y as int, lo as int, px - 1), color),
        decreases hi + 1 - px,
    {
        let ghost before = *canvas;
        canvas.put_pixel(px as u32, y as u32, color);
        proof {
            lemma_paints_union(&start, &before, canvas, span(y as int, lo as int, px - 1), set![(px as int, y as int)], color);
            assert(span(y as int, lo as int, px - 1).union(set![(px as int, y as int)]) =~= span(y as int, lo as int, px as int));
        }
        px = px + 1;
    }
    proof {
        assert forall|a: int, b: int| #[trigger] canvas.contains(a, b) implies (span(y as int, lo as int, hi as int).contains((a, b)) == span(y as int, x_from as int, x_to as int).contains((a, b))) by {}
    }
}

/// Painting `s` and then `t` in one color paints their union.
pub proof fn lemma_paints_union<C: Copy>(
    a: &Canvas<C>,
    b: &Canvas<C>,
    c: &Canvas<C>,
    s: Set<(int, int)>,
    t: Set<(int, int)>,
    color: C,
)
    requires
        paints(a, b, s, color),
        paints(b, c, t, color),
    ensures
        paints(a, c, s.union(t), color),
{
    assert forall|x: int, y: int| #[trigger] c.contains(x, y) implies c.at(x, y) == if s.union(
        t,
    ).contains((x, y)) {
        color
    } else {
        a.at(x, y)
    } by {
        assert(b.contains(x, y));
    }
}

/// Painting onto a copy is painting onto the original.
pub proof fn lemma_paints_copy<C: Copy>(a: &Canvas<C>, a2: &Canvas<C>, b: &Canvas<C>, s: Set<(int, int)>, color: C)
    requires
        a2.same_pixels(a),
        paints(a2, b, s, color),
    ensures
        paints(a, b, s, color),
{
    assert forall|x: int, y: int| #[trigger] b.contains(x, y) implies b.at(x, y) == if s.contains((x, y)) {
        color
    } else {
        a.at(x, y)
    } by {
        assert(a2.contains(x, y));
    }
}

/// Painting the empty set changes no pixel.
pub proof fn lemma_paints_nothing<C: Copy>(a: &Canvas<C>, color: C)
    requires
        a.wf(),
    ensures
        paints(a, a, Set::empty(), color),
{
}

} // verus!
