use vstd::prelude::*;

use crate::style::Font;

verus! {

/// What kind of element an element is.
#[derive(Debug)]
pub enum Tag {
    // Structural frame with no semantic meaning
    Frame,
    Label { text: String, font: Font },
    Button {},
}

pub type Button = Tag;

pub type Label = Tag;

impl Label {
    /// A label showing `text` in `font`.
    pub fn new(text: String, font: Font) -> (l: Label)
        ensures
            l == (Tag::Label { text: text, font: font }),
    {
        Tag::Label { text: text, font: font }
    }
}

} // verus!
