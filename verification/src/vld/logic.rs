use vstd::prelude::*;

verus! {

/// The state of a button or key in the current frame.
pub struct InputState {
    pub pressed: bool,
    pub released: bool,
    pub up: bool,
    pub down: bool,
}

} // verus!
