use keva_core::types::key::Key;
use keva_core::window::{
    client_size, cursor_position, handle_message, hit_test, key_list_lines, target_plan, window_origin,
    HitRegion, MenuCommand, MessageResult, TargetPlan, TrayButton, WindowAction, WindowMessage,
    WindowRect, WindowState,
};

const BORDER: i32 = 6;

fn rect() -> WindowRect {
    WindowRect { left: 100, top: 50, right: 900, bottom: 650 }
}

fn pack(x: i32, y: i32) -> isize {
    (((y as u16) as isize) << 16) | ((x as u16) as isize)
}

#[test]
fn hit_test_corners_edges_and_caption() {
    let r = rect();
    assert_eq!(hit_test(r, 100, 50, BORDER), HitRegion::TopLeft);
    assert_eq!(hit_test(r, 899, 50, BORDER), HitRegion::TopRight);
    assert_eq!(hit_test(r, 100, 649, BORDER), HitRegion::BottomLeft);
    assert_eq!(hit_test(r, 899, 649, BORDER), HitRegion::BottomRight);
    assert_eq!(hit_test(r, 105, 300, BORDER), HitRegion::Left);
    assert_eq!(hit_test(r, 894, 300, BORDER), HitRegion::Right);
    assert_eq!(hit_test(r, 500, 55, BORDER), HitRegion::Top);
    assert_eq!(hit_test(r, 500, 644, BORDER), HitRegion::Bottom);
    assert_eq!(hit_test(r, 500, 300, BORDER), HitRegion::Caption);
    // Just inside the border width, and just past it.
    assert_eq!(hit_test(r, 106, 300, BORDER), HitRegion::Caption);
    assert_eq!(hit_test(r, 893, 300, BORDER), HitRegion::Caption);
    // The right and bottom edges themselves are outside the window.
    assert_eq!(hit_test(r, 900, 300, BORDER), HitRegion::Caption);
}

#[test]
fn hit_test_extreme_coordinates_do_not_overflow() {
    let r = WindowRect { left: i32::MAX - 2, top: i32::MIN, right: i32::MAX, bottom: i32::MIN + 1 };
    assert_eq!(hit_test(r, i32::MAX - 1, i32::MIN, BORDER), HitRegion::TopLeft);
}

#[test]
fn cursor_position_reads_signed_words() {
    assert_eq!(cursor_position(pack(10, 20)), (10, 20));
    assert_eq!(cursor_position(pack(-5, 300)), (-5, 300));
    assert_eq!(cursor_position(pack(-32768, 32767)), (-32768, 32767));
    assert_eq!(cursor_position(0xFFFF_FFFF), (-1, -1));
}

#[test]
fn client_size_reads_unsigned_words() {
    assert_eq!(client_size(pack(800, 600)), (800, 600));
    assert_eq!(client_size(0xFFFF_FFFF), (65535, 65535));
}

#[test]
fn escape_gives_focus_back_to_the_window_that_had_it() {
    let mut state = WindowState::new();
    let r = handle_message(&mut state, WindowMessage::EscapeKey, BORDER);
    assert_eq!(r.actions, vec![WindowAction::Hide]);
    assert_eq!(r.result, MessageResult::Handled);

    let r = handle_message(&mut state, WindowMessage::Activate { wparam: 1, lparam: 4242 }, BORDER);
    assert_eq!(r.result, MessageResult::Default);
    assert!(r.actions.is_empty());
    assert_eq!(state.previous_focus, 4242);

    // A deactivation, or an activation with no previous window, keeps the record.
    handle_message(&mut state, WindowMessage::Activate { wparam: 0, lparam: 7 }, BORDER);
    handle_message(&mut state, WindowMessage::Activate { wparam: 0x1_0000, lparam: 7 }, BORDER);
    handle_message(&mut state, WindowMessage::Activate { wparam: 2, lparam: 0 }, BORDER);
    assert_eq!(state.previous_focus, 4242);

    let r = handle_message(&mut state, WindowMessage::EscapeKey, BORDER);
    assert_eq!(r.actions, vec![WindowAction::FocusWindow { handle: 4242 }, WindowAction::Hide]);

    let r = handle_message(&mut state, WindowMessage::OtherKey, BORDER);
    assert!(r.actions.is_empty());
    assert_eq!(r.result, MessageResult::Handled);
}

#[test]
fn tray_icon_toggles_and_opens_menu() {
    let mut state = WindowState::new();
    let shown = handle_message(&mut state, WindowMessage::TrayIcon { button: TrayButton::Left, visible: false }, BORDER);
    assert_eq!(shown.actions, vec![WindowAction::Show, WindowAction::FocusSelf]);
    let hidden = handle_message(&mut state, WindowMessage::TrayIcon { button: TrayButton::Left, visible: true }, BORDER);
    assert_eq!(hidden.actions, vec![WindowAction::Hide]);
    let menu = handle_message(&mut state, WindowMessage::TrayIcon { button: TrayButton::Right, visible: true }, BORDER);
    assert_eq!(menu.actions, vec![WindowAction::ShowTrayMenu]);
    let other = handle_message(&mut state, WindowMessage::TrayIcon { button: TrayButton::Other, visible: true }, BORDER);
    assert!(other.actions.is_empty());
    assert_eq!(other.result, MessageResult::Handled);
}

#[test]
fn menu_commands() {
    let mut state = WindowState::new();
    let show = handle_message(&mut state, WindowMessage::Command { command: MenuCommand::Show }, BORDER);
    assert_eq!(show.actions, vec![WindowAction::Show, WindowAction::FocusSelf]);
    let quit = handle_message(&mut state, WindowMessage::Command { command: MenuCommand::Quit }, BORDER);
    assert_eq!(quit.actions, vec![WindowAction::Hide, WindowAction::PostQuit]);
    for c in [MenuCommand::Settings, MenuCommand::LaunchAtLogin, MenuCommand::Other] {
        let r = handle_message(&mut state, WindowMessage::Command { command: c }, BORDER);
        assert!(r.actions.is_empty());
        assert_eq!(r.result, MessageResult::Handled);
    }
}

#[test]
fn frame_messages_and_lifecycle() {
    let mut state = WindowState::new();
    assert_eq!(handle_message(&mut state, WindowMessage::Create, BORDER).result, MessageResult::Handled);
    assert_eq!(handle_message(&mut state, WindowMessage::NcCalcSize, BORDER).result, MessageResult::Handled);
    assert_eq!(handle_message(&mut state, WindowMessage::NcActivate, BORDER).result, MessageResult::True);
    assert_eq!(handle_message(&mut state, WindowMessage::Other, BORDER).result, MessageResult::Default);

    let hit = handle_message(&mut state, WindowMessage::NcHitTest { lparam: pack(101, 51), rect: rect() }, BORDER);
    assert_eq!(hit.result, MessageResult::Hit { region: HitRegion::TopLeft });
    let hit = handle_message(&mut state, WindowMessage::NcHitTest { lparam: pack(500, 300), rect: rect() }, BORDER);
    assert_eq!(hit.result, MessageResult::Hit { region: HitRegion::Caption });

    let size = handle_message(&mut state, WindowMessage::Size { lparam: pack(640, 480) }, BORDER);
    assert_eq!(size.actions, vec![WindowAction::Resize { width: 640, height: 480 }]);
    let paint = handle_message(&mut state, WindowMessage::Paint, BORDER);
    assert_eq!(paint.actions, vec![WindowAction::Paint, WindowAction::Validate]);
    let destroy = handle_message(&mut state, WindowMessage::Destroy, BORDER);
    assert_eq!(
        destroy.actions,
        vec![WindowAction::ReleaseApp, WindowAction::RemoveTrayIcon, WindowAction::PostQuit]
    );
}

#[test]
fn window_opens_centred() {
    assert_eq!(window_origin(1920, 1080, 800, 600), (560, 240));
    assert_eq!(window_origin(1921, 1081, 800, 600), (560, 240));
    // A screen smaller than the window: rounded toward zero.
    assert_eq!(window_origin(100, 100, 801, 600), (-350, -250));
    assert_eq!(window_origin(i32::MIN, i32::MAX, i32::MAX, i32::MIN), (-(i32::MAX), i32::MAX));
}

#[test]
fn drawing_surface_plan() {
    let client = WindowRect { left: 0, top: 0, right: 800, bottom: 600 };
    assert_eq!(target_plan(client, None), TargetPlan::Create { width: 800, height: 600 });
    assert_eq!(target_plan(client, Some((800, 600))), TargetPlan::Keep);
    assert_eq!(target_plan(client, Some((800, 599))), TargetPlan::Create { width: 800, height: 600 });
    let empty = WindowRect { left: 10, top: 0, right: 10, bottom: 600 };
    assert_eq!(target_plan(empty, None), TargetPlan::Skip);
    assert_eq!(target_plan(WindowRect { left: 0, top: 5, right: 3, bottom: 5 }, Some((3, 0))), TargetPlan::Skip);
}

fn keys(n: usize) -> Vec<Key> {
    (0..n).map(|i| Key::try_new(format!("key{}", i)).unwrap()).collect()
}

#[test]
fn key_list_shows_all_of_a_short_list() {
    let lines = key_list_lines(&keys(3));
    assert_eq!(lines.len(), 3);
    assert_eq!(lines[0].text, "key0");
    assert_eq!(lines[0].top, 10);
    assert_eq!(lines[2].text, "key2");
    assert_eq!(lines[2].top, 58);
    assert!(key_list_lines(&Vec::new()).is_empty());
}

#[test]
fn key_list_counts_the_keys_left_over() {
    let lines = key_list_lines(&keys(20));
    assert_eq!(lines.len(), 20);
    assert_eq!(lines[19].text, "key19");

    let lines = key_list_lines(&keys(21));
    assert_eq!(lines.len(), 21);
    assert_eq!(lines[20].text, "... and 1 more");
    assert_eq!(lines[20].top, 490);

    let lines = key_list_lines(&keys(1234));
    assert_eq!(lines.len(), 21);
    assert_eq!(lines[19].text, "key19");
    assert_eq!(lines[19].top, 466);
    assert_eq!(lines[20].text, "... and 1214 more");
}
