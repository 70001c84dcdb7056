//! The state of one widget of the screen.

use vstd::prelude::*;

verus! {

/// How far a widget is scrolled.
pub struct WidgetState {
    pub scroll: u8,
}

impl WidgetState {
    /// A widget that is not scrolled.
    pub fn new() -> (state: Self)
        ensures
            state.scroll == 0,
    {
        Self { scroll: 0 }
    }
}

} // verus!
