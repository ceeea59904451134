pub mod logic;
pub mod view;

pub use logic::InputState;
pub use view::{MeasureContext, RenderArea, RenderContext, View};
