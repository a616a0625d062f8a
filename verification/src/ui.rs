//! State and layout of the application window. Both are still empty: the
//! window shows no panes yet.
use vstd::prelude::*;

verus! {

/// Application state container (focus, selection, editing and search state
/// are still to come).
#[derive(Debug, PartialEq, Eq)]
pub struct AppState {}

impl AppState {
    /// The initial state.
    pub fn new() -> (r: Self)
        ensures
            r == (AppState {}),
    {
        AppState {}
    }
}

impl Default for AppState {
    fn default() -> (r: Self)
        ensures
            r == (AppState {}),
    {
        AppState::new()
    }
}

/// Layout of the window's regions (none are laid out yet).
#[derive(Debug, PartialEq, Eq)]
pub struct Layout {}

impl Layout {
    /// The layout for a window of the given size.
    pub fn compute(width: u32, height: u32) -> (r: Self)
        ensures
            r == (Layout {}),
    {
        Layout {}
    }
}

} // verus!
