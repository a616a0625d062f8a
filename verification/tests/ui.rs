use keva_core::ui::{AppState, Layout};

#[test]
fn app_state_and_layout_start_empty() {
    assert_eq!(AppState::new(), AppState::default());
    assert_eq!(Layout::compute(800, 600), Layout::compute(1, 1));
}
