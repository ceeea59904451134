use vstd::prelude::*;

use crate::arith::{fits_i32, div_trunc};
use crate::vec2::Vec2i;

verus! {

/// An axis-aligned rectangle: top-left corner `(x, y)`, width `w` and height `h`.
#[derive(Debug, Clone, Copy)]
pub struct RenderBox {
    pub x: i32,
    pub y: i32,
    pub w: i32,
    pub h: i32,
}

/// Whether shrinking a box by the given edge amounts stays within `i32`.
pub open spec fn can_shrink(b: RenderBox, t: int, r: int, bo: int, l: int) -> bool {
    &&& fits_i32(b.x + l)
    &&& fits_i32(b.y + t)
    &&& fits_i32(l + r)
    &&& fits_i32(t + bo)
    &&& fits_i32(b.w - (l + r))
    &&& fits_i32(b.h - (t + bo))
}

/// The box that `shrink` produces.
pub open spec fn shrunk(b: RenderBox, t: int, r: int, bo: int, l: int) -> RenderBox {
    RenderBox {
        x: (b.x + l) as i32,
        y: (b.y + t) as i32,
        w: (b.w - (l + r)) as i32,
        h: (b.h - (t + bo)) as i32,
    }
}

/// The width of each column that `split_x` makes.
pub open spec fn column_width(b: RenderBox, cols: int, gap: int) -> int {
    div_trunc(b.w - gap * (cols - 1), cols)
}

/// Whether `split_x` computes without leaving `i32`: the total gap, the space left for the
/// columns, the stride from one column to the next, and every column's left edge (the one
/// after the last included).
pub open spec fn can_split_x(b: RenderBox, cols: int, gap: int) -> bool {
    &&& 0 < cols <= i32::MAX
    &&& fits_i32(cols - 1)
    &&& fits_i32(gap * (cols - 1))
    &&& fits_i32(b.w - gap * (cols - 1))
    &&& fits_i32(gap + column_width(b, cols, gap))
    &&& forall|k: int| 0 <= k <= cols ==> #[trigger] fits_i32(b.x + k * (gap + column_width(b, cols, gap)))
}

impl RenderBox {
    pub fn zero() -> (r: Self)
        ensures
            r.x == 0 && r.y == 0 && r.w == 0 && r.h == 0,
    {
        RenderBox { x: 0, y: 0, w: 0, h: 0 }
    }

    /// The box with its top, right, bottom and left edges moved inwards by `t`, `r`, `b`, `l`.
    pub fn shrink(&self, t: i32, r: i32, b: i32, l: i32) -> (res: RenderBox)
        requires
            can_shrink(*self, t as int, r as int, b as int, l as int),
        ensures
            res == shrunk(*self, t as int, r as int, b as int, l as int),
    {
        RenderBox { x: self.x + l, y: self.y + t, w: self.w - (l + r), h: self.h - (t + b) }
    }

    /// Splits the box into `cols` columns of equal width, `gap` apart, from left to right.
    pub fn split_x(&self, cols: usize, gap: i32) -> (res: Vec<RenderBox>)
        requires
            can_split_x(*self, cols as int, gap as int),
        ensures
            res.len() == cols,
            forall|k: int|
                0 <= k < cols ==> #[trigger] res[k] == (RenderBox {
                    x: (self.x + k * (gap + column_width(*self, cols as int, gap as int))) as i32,
                    y: self.y,
                    w: column_width(*self, cols as int, gap as int) as i32,
                    h: self.h,
                }),
    {
        let mut vec: Vec<RenderBox> = Vec::with_capacity(cols);
        let cols: i32 = cols as i32;
        let w: i32 = crate::arith::i32_div(self.w - (gap * (cols - 1)), cols);
        let ghost cw = column_width(*self, cols as int, gap as int);
        let mut x: i32 = self.x;
        let mut k: i32 = 0;
        while k < cols
            invariant
                0 <= k <= cols,
                can_split_x(*self, cols as int, gap as int),
                cw == column_width(*self, cols as int, gap as int),
                w == cw,
                x == self.x + k * (gap + cw),
                vec.len() == k,
                forall|j: int|
                    0 <= j < k ==> #[trigger] vec[j] == (RenderBox {
                        x: (self.x + j * (gap + cw)) as i32,
                        y: self.y,
                        w: cw as i32,
                        h: self.h,
                    }),
            decreases cols - k,
        {
            vec.push(RenderBox { x: x, y: self.y, w: w, h: self.h });
            assert(fits_i32(self.x + (k + 1) * (gap + column_width(*self, cols as int, gap as int))));
            assert(self.x + (k + 1) * (gap + cw) == x + (gap + w)) by (nonlinear_arith)
                requires
                    x == self.x + k * (gap + cw),
                    w == cw,
            ;
            x += gap + w;
            k += 1;
        }
        vec
    }

    /// The size of the box as a vector `(w, h)`.
    pub fn size(&self) -> (r: Vec2i)
        ensures
            r.x == self.w,
            r.y == self.h,
    {
        Vec2i { x: self.w, y: self.h }
    }

    pub fn new(x: i32, y: i32, w: i32, h: i32) -> (r: Self)
        ensures
            r.x == x && r.y == y && r.w == w && r.h == h,
    {
        Self { x, y, w, h }
    }
}

/// Shrinking by nothing leaves a box as it is.
pub proof fn lemma_shrink_zero(b: RenderBox)
    ensures
        can_shrink(b, 0, 0, 0, 0),
        shrunk(b, 0, 0, 0, 0) == b,
{
}

/// Shrinking twice is shrinking once by the sums of the edge amounts.
pub proof fn lemma_shrink_twice(b: RenderBox, t1: int, r1: int, b1: int, l1: int, t2: int, r2: int, b2: int, l2: int)
    requires
        can_shrink(b, t1, r1, b1, l1),
        can_shrink(shrunk(b, t1, r1, b1, l1), t2, r2, b2, l2),
        fits_i32(t1 + t2),
        fits_i32(r1 + r2),
        fits_i32(b1 + b2),
        fits_i32(l1 + l2),
        fits_i32((l1 + l2) + (r1 + r2)),
        fits_i32((t1 + t2) + (b1 + b2)),
    ensures
        can_shrink(b, t1 + t2, r1 + r2, b1 + b2, l1 + l2),
        shrunk(shrunk(b, t1, r1, b1, l1), t2, r2, b2, l2) == shrunk(b, t1 + t2, r1 + r2, b1 + b2, l1 + l2),
{
}

/// The columns of `split_x` sit side by side: each starts `gap` after the previous one ends,
/// and when the box leaves room for the gaps, together with the gaps they span at most the
/// box's width and miss it by less than one pixel per column.
pub proof fn lemma_split_x_columns(b: RenderBox, cols: int, gap: int, k: int)
    requires
        can_split_x(b, cols, gap),
        0 <= k < cols - 1,
    ensures
        (b.x + (k + 1) * (gap + column_width(b, cols, gap)))
            == (b.x + k * (gap + column_width(b, cols, gap))) + column_width(b, cols, gap) + gap,
        b.w - gap * (cols - 1) >= 0 ==> {
            &&& cols * column_width(b, cols, gap) + (cols - 1) * gap <= b.w
            &&& b.w < cols * column_width(b, cols, gap) + (cols - 1) * gap + cols
        },
{
    let cw = column_width(b, cols, gap);
    assert((k + 1) * (gap + cw) == k * (gap + cw) + (gap + cw)) by (nonlinear_arith);
    if b.w - gap * (cols - 1) >= 0 {
        let rem = b.w - gap * (cols - 1);
        assert(cw == rem / cols);
        assert(cols * (rem / cols) <= rem && rem < cols * (rem / cols) + cols) by (nonlinear_arith)
            requires
                cols > 0,
                rem >= 0,
        ;
        assert(gap * (cols - 1) == (cols - 1) * gap) by (nonlinear_arith);
    }
}

} // verus!
