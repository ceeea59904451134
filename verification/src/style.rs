use vstd::prelude::*;

use crate::arith::fits_i32;
use crate::draw::{Color, DrawKind, DrawOp};
use crate::render_box::{can_shrink, shrunk, RenderBox};

verus! {

/// A font, given by its size.
#[derive(Debug)]
pub struct Font {
    pub size: i32,
}

/// An amount for each side of a box: top, right, bottom, left.
#[derive(Debug, Clone, Copy)]
pub struct SidedSize {
    pub t: usize,
    pub r: usize,
    pub b: usize,
    pub l: usize,
}

impl SidedSize {
    pub fn new(top: usize, right: usize, bottom: usize, left: usize) -> (s: SidedSize)
        ensures
            s.t == top && s.r == right && s.b == bottom && s.l == left,
    {
        SidedSize { t: top, r: right, b: bottom, l: left }
    }

    pub fn new_uniform(size: usize) -> (s: SidedSize)
        ensures
            s.t == size && s.r == size && s.b == size && s.l == size,
    {
        SidedSize { t: size, r: size, b: size, l: size }
    }

    pub fn new_symmetrical(vertical: usize, horizontal: usize) -> (s: SidedSize)
        ensures
            s.t == vertical && s.r == horizontal && s.b == vertical && s.l == horizontal,
    {
        SidedSize { t: vertical, r: horizontal, b: vertical, l: horizontal }
    }

    /// Whether shrinking `b` by these amounts (each taken as an `i32`) stays within `i32`.
    pub open spec fn can_shrink_box(self, b: RenderBox) -> bool {
        can_shrink(b, self.t as i32 as int, self.r as i32 as int, self.b as i32 as int, self.l as i32 as int)
    }

    /// The box `b` with each side moved inwards by the amount for that side.
    pub open spec fn shrink_box(self, b: RenderBox) -> RenderBox {
        shrunk(b, self.t as i32 as int, self.r as i32 as int, self.b as i32 as int, self.l as i32 as int)
    }
}

/// Space between an element's border and its contents.
pub type Padding = SidedSize;

impl Padding {
    /// The box inside the padding of `b`.
    pub fn internal_box(&self, b: &RenderBox) -> (r: RenderBox)
        requires
            self.can_shrink_box(*b),
        ensures
            r == self.shrink_box(*b),
    {
        b.shrink(self.t as i32, self.r as i32, self.b as i32, self.l as i32)
    }
}

/// A border: a color and a width for each side.
#[derive(Debug, Clone, Copy)]
pub struct Border {
    pub color: Color,
    pub width: SidedSize,
}

/// Whether the rectangles of a border around `b` stay within `i32`.
pub open spec fn can_render_border(border: Border, b: RenderBox) -> bool {
    &&& fits_i32(b.x + b.w)
    &&& fits_i32(b.x + b.w - border.width.r as i32)
    &&& fits_i32(b.y + b.h)
    &&& fits_i32(b.y + b.h - border.width.b as i32)
}

/// A filled rectangle in a color, drawn without clipping.
pub open spec fn fill_op(x: int, y: int, w: int, h: int, color: Color) -> DrawOp {
    DrawOp {
        kind: DrawKind::FillRect,
        area: RenderBox { x: x as i32, y: y as i32, w: w as i32, h: h as i32 },
        color: color,
        clip: None,
    }
}

impl Border {
    /// A border of width zero on every side, in transparent white.
    pub fn none() -> (r: Self)
        ensures
            r.color == Color::transparent_white_spec(),
            r.width.t == 0 && r.width.r == 0 && r.width.b == 0 && r.width.l == 0,
    {
        Self { color: Color::transparent_white(), width: SidedSize::new_uniform(0) }
    }

    /// The box inside the border of `b`.
    pub fn internal_box(&self, b: &RenderBox) -> (r: RenderBox)
        requires
            self.width.can_shrink_box(*b),
        ensures
            r == self.width.shrink_box(*b),
    {
        b.shrink(self.width.t as i32, self.width.r as i32, self.width.b as i32, self.width.l as i32)
    }

    /// The rectangles that draw this border around `b`: left, top, right and bottom, in the
    /// border's color.
    pub fn render(&self, b: &RenderBox) -> (ops: Vec<DrawOp>)
        requires
            can_render_border(*self, *b),
        ensures
            ops@ == seq![
                fill_op(b.x as int, b.y as int, self.width.l as i32 as int, b.h as int, self.color),
                fill_op(b.x as int, b.y as int, b.w as int, self.width.t as i32 as int, self.color),
                fill_op(b.x + b.w - self.width.r as i32, b.y as int, self.width.r as i32 as int, b.h as int, self.color),
                fill_op(b.x as int, b.y + b.h - self.width.b as i32, b.w as int, self.width.b as i32 as int, self.color),
            ],
    {
        let mut ops: Vec<DrawOp> = Vec::new();
        // Left
        ops.push(DrawOp {
            kind: DrawKind::FillRect,
            area: RenderBox::new(b.x, b.y, self.width.l as i32, b.h),
            color: self.color,
            clip: None,
        });
        // Top
        ops.push(DrawOp {
            kind: DrawKind::FillRect,
            area: RenderBox::new(b.x, b.y, b.w, self.width.t as i32),
            color: self.color,
            clip: None,
        });
        // Right
        ops.push(DrawOp {
            kind: DrawKind::FillRect,
            area: RenderBox::new(b.x + b.w - self.width.r as i32, b.y, self.width.r as i32, b.h),
            color: self.color,
            clip: None,
        });
        // Bottom
        ops.push(DrawOp {
            kind: DrawKind::FillRect,
            area: RenderBox::new(b.x, b.y + b.h - self.width.b as i32, b.w, self.width.b as i32),
            color: self.color,
            clip: None,
        });
        ops
    }
}

/// How an element looks: padding, border, background and size limits.
#[derive(Debug, Clone, Copy)]
pub struct Style {
    pub padding: Option<Padding>,
    pub border: Option<Border>,
    pub background: Option<Color>,
    pub min_width: i32,
    pub max_width: Option<i32>,
    pub min_height: i32,
    pub max_height: Option<i32>,
}

impl Style {
    pub fn padding(self, padding: Padding) -> (r: Self)
        ensures
            r == (Style { padding: Some(padding), ..self }),
    {
        let mut s = self;
        s.padding = Some(padding);
        s
    }

    pub fn border(self, border: Border) -> (r: Self)
        ensures
            r == (Style { border: Some(border), ..self }),
    {
        let mut s = self;
        s.border = Some(border);
        s
    }

    pub fn background(self, background: Color) -> (r: Self)
        ensures
            r == (Style { background: Some(background), ..self }),
    {
        let mut s = self;
        s.background = Some(background);
        s
    }

    pub fn min_width(self, min_width: i32) -> (r: Self)
        ensures
            r == (Style { min_width: min_width, ..self }),
    {
        let mut s = self;
        s.min_width = min_width;
        s
    }

    pub fn max_width(self, max_width: i32) -> (r: Self)
        ensures
            r == (Style { max_width: Some(max_width), ..self }),
    {
        let mut s = self;
        s.max_width = Some(max_width);
        s
    }

    pub fn min_height(self, min_height: i32) -> (r: Self)
        ensures
            r == (Style { min_height: min_height, ..self }),
    {
        let mut s = self;
        s.min_height = min_height;
        s
    }

    pub fn max_height(self, max_height: i32) -> (r: Self)
        ensures
            r == (Style { max_height: Some(max_height), ..self }),
    {
        let mut s = self;
        s.max_height = Some(max_height);
        s
    }

    pub fn min_size(self, width: i32, height: i32) -> (r: Self)
        ensures
            r == (Style { min_width: width, min_height: height, ..self }),
    {
        let mut s = self;
        s.min_width = width;
        s.min_height = height;
        s
    }

    pub fn max_size(self, width: i32, height: i32) -> (r: Self)
        ensures
            r == (Style { max_width: Some(width), max_height: Some(height), ..self }),
    {
        let mut s = self;
        s.max_width = Some(width);
        s.max_height = Some(height);
        s
    }
}

impl Default for Style {
    fn default() -> (r: Self)
        ensures
            r == (Style {
                padding: None,
                border: None,
                background: None,
                min_width: 0,
                max_width: None,
                min_height: 0,
                max_height: None,
            }),
    {
        Self {
            padding: None,
            border: None,
            background: None,
            min_width: 0,
            max_width: None,
            min_height: 0,
            max_height: None,
        }
    }
}

} // verus!
