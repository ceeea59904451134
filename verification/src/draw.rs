use vstd::prelude::*;

use crate::render_box::RenderBox;

verus! {

/// An RGBA color with 8 bits per channel.
#[derive(Debug, Clone, Copy, PartialEq, Eq)]
pub struct Color {
    pub r: u8,
    pub g: u8,
    pub b: u8,
    pub a: u8,
}

impl Color {
    /// The color `red` returns.
    pub open spec fn red_spec() -> Color {
        Color { r: 255, g: 0, b: 0, a: 255 }
    }

    /// The color `transparent_white` returns.
    pub open spec fn transparent_white_spec() -> Color {
        Color { r: 255, g: 255, b: 255, a: 0 }
    }

    pub fn new(r: u8, g: u8, b: u8, a: u8) -> (c: Color)
        ensures
            c == (Color { r, g, b, a }),
    {
        Color { r, g, b, a }
    }

    /// Opaque red, the color of element outlines.
    pub fn red() -> (c: Color)
        ensures
            c == Color::red_spec(),
    {
        Color { r: 255, g: 0, b: 0, a: 255 }
    }

    /// White with zero alpha: fully transparent.
    pub fn transparent_white() -> (c: Color)
        ensures
            c == Color::transparent_white_spec(),
    {
        Color { r: 255, g: 255, b: 255, a: 0 }
    }
}

/// What a drawing operation draws.
#[derive(Debug, Clone, Copy, PartialEq, Eq)]
pub enum DrawKind {
    /// A filled rectangle.
    FillRect,
    /// The outline of a rectangle.
    OutlineRect,
}

/// One drawing operation: a rectangle in a color, drawn only inside `clip` when that is set.
#[derive(Debug, Clone, Copy)]
pub struct DrawOp {
    pub kind: DrawKind,
    pub area: RenderBox,
    pub color: Color,
    pub clip: Option<RenderBox>,
}

} // verus!
