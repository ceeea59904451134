use vstd::prelude::*;

pub mod arith;
pub mod arrange;
pub mod draw;
pub mod element;
pub mod layout;
pub mod measure;
pub mod order;
pub mod render;
pub mod render_box;
pub mod style;
pub mod tag;
pub mod vec2;
pub mod vld;

verus! {

} // verus!
