use vstd::prelude::*;

use crate::draw::Color;

verus! {

/// Something that can be drawn on.
pub trait RenderContext {
    fn fill_rect(&mut self, x: i32, y: i32, w: i32, h: i32, color: Color);

    fn outline_rect(&mut self, x: i32, y: i32, w: i32, h: i32, color: Color);

    fn calculate_text_size(&self, text: &str, size: i32) -> (i32, i32);

    fn fill_text(&mut self, x: i32, y: i32, text: &str, size: i32, color: Color);
}

/// Something that can tell how large a text is when drawn.
pub trait MeasureContext {
    fn calculate_text_size(&self, text: &str, size: i32) -> (i32, i32);
}

/// A rectangle to render into.
pub struct RenderArea {
    pub rx: i32,
    pub ry: i32,
    pub rw: i32,
    pub rh: i32,
}

/// Something that draws itself into an area.
pub trait View {
    /// Render relative to the viewport camera (fixed within the screen).
    fn render_overlay(&self, _area: RenderArea, _context: &mut impl RenderContext) {
    }

    /// Render relative to global coordinates (will not move with the camera).
    fn render_world(&self, _area: RenderArea, _context: &mut impl RenderContext) {
    }
}

} // verus!
