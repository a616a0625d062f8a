//! Decisions of the borderless application window: which part of the
//! window the cursor is over, how each window message is answered, where
//! the window opens, when the drawing surface is made anew, and which lines
//! the key list shows. The platform carries them out.
use crate::types::key::Key;
use crate::types::text::{decimal, push_decimal};
use vstd::prelude::*;

verus! {

/// A rectangle in screen or client coordinates.
#[derive(Debug, Clone, Copy, PartialEq, Eq)]
pub struct WindowRect {
    pub left: i32,
    pub top: i32,
    pub right: i32,
    pub bottom: i32,
}

/// The part of the window under the cursor: a resize border or corner, or
/// the rest of the window, by which it is dragged.
#[derive(Debug, Clone, Copy, PartialEq, Eq)]
pub enum HitRegion {
    TopLeft,
    TopRight,
    BottomLeft,
    BottomRight,
    Left,
    Right,
    Top,
    Bottom,
    Caption,
}

/// Whether `x` lies in the left resize border, `border` wide.
pub open spec fn on_left(r: WindowRect, x: int, border: int) -> bool {
    r.left <= x < r.left + border
}

/// Whether `x` lies in the right resize border.
pub open spec fn on_right(r: WindowRect, x: int, border: int) -> bool {
    r.right - border <= x < r.right
}

/// Whether `y` lies in the top resize border.
pub open spec fn on_top(r: WindowRect, y: int, border: int) -> bool {
    r.top <= y < r.top + border
}

/// Whether `y` lies in the bottom resize border.
pub open spec fn on_bottom(r: WindowRect, y: int, border: int) -> bool {
    r.bottom - border <= y < r.bottom
}

/// The part of the window `r` under the point (`x`, `y`): corners before
/// edges, the left and right edges before the top and bottom ones.
pub open spec fn spec_hit_test(r: WindowRect, x: int, y: int, border: int) -> HitRegion {
    let l = on_left(r, x, border);
    let rt = on_right(r, x, border);
    let t = on_top(r, y, border);
    let b = on_bottom(r, y, border);
    if t && l {
        HitRegion::TopLeft
    } else if t && rt {
        HitRegion::TopRight
    } else if b && l {
        HitRegion::BottomLeft
    } else if b && rt {
        HitRegion::BottomRight
    } else if l {
        HitRegion::Left
    } else if rt {
        HitRegion::Right
    } else if t {
        HitRegion::Top
    } else if b {
        HitRegion::Bottom
    } else {
        HitRegion::Caption
    }
}

/// The part of the window with rectangle `rect` that the cursor at (`x`,
/// `y`) is over, for resize borders `border` wide.
pub fn hit_test(rect: WindowRect, x: i32, y: i32, border: i32) -> (r: HitRegion)
    ensures
        r == spec_hit_test(rect, x as int, y as int, border as int),
{
    let x: i64 = x as i64;
    let y: i64 = y as i64;
    let b: i64 = border as i64;
    let left: i64 = rect.left as i64;
    let right: i64 = rect.right as i64;
    let top: i64 = rect.top as i64;
    let bottom: i64 = rect.bottom as i64;
    let on_l = x >= left && x < left + b;
    let on_r = x >= right - b && x < right;
    let on_t = y >= top && y < top + b;
    let on_b = y >= bottom - b && y < bottom;
    if on_t && on_l {
        HitRegion::TopLeft
    } else if on_t && on_r {
        HitRegion::TopRight
    } else if on_b && on_l {
        HitRegion::BottomLeft
    } else if on_b && on_r {
        HitRegion::BottomRight
    } else if on_l {
        HitRegion::Left
    } else if on_r {
        HitRegion::Right
    } else if on_t {
        HitRegion::Top
    } else if on_b {
        HitRegion::Bottom
    } else {
        HitRegion::Caption
    }
}

/// The low 16 bits of a message parameter.
pub open spec fn low_word(l: isize) -> int {
    (l & 0xFFFF) as int
}

/// Bits 16 to 31 of a message parameter.
pub open spec fn high_word(l: isize) -> int {
    ((l >> 16) & 0xFFFF) as int
}

/// A 16-bit word read as a signed number.
pub open spec fn signed_word(w: int) -> int {
    if w < 0x8000 {
        w
    } else {
        w - 0x10000
    }
}

/// The signed value of the 16-bit word `w` (below 2^16).
fn word_to_signed(w: isize) -> (r: i32)
    requires
        0 <= w < 0x10000,
    ensures
        r == signed_word(w as int),
{
    let s: i16 = w as i16;
    assert(0 <= w < 0x10000 ==> (w as i16) as int == if w < 0x8000 {
        w as int
    } else {
        w - 0x10000
    }) by (bit_vector);
    s as i32
}

/// The cursor position packed in a message parameter: the signed low word
/// is `x`, the signed high word `y`.
pub fn cursor_position(lparam: isize) -> (r: (i32, i32))
    ensures
        r.0 == signed_word(low_word(lparam)),
        r.1 == signed_word(high_word(lparam)),
{
    let lo: isize = lparam & 0xFFFF;
    let hi: isize = (lparam >> 16) & 0xFFFF;
    assert(0 <= lparam & 0xFFFF < 0x10000) by (bit_vector);
    assert(0 <= (lparam >> 16) & 0xFFFF < 0x10000) by (bit_vector);
    (word_to_signed(lo), word_to_signed(hi))
}

/// The client size packed in a message parameter: the low word is the
/// width, the high word the height.
pub fn client_size(lparam: isize) -> (r: (u32, u32))
    ensures
        r.0 == low_word(lparam),
        r.1 == high_word(lparam),
{
    let lo: isize = lparam & 0xFFFF;
    let hi: isize = (lparam >> 16) & 0xFFFF;
    assert(0 <= lparam & 0xFFFF < 0x10000) by (bit_vector);
    assert(0 <= (lparam >> 16) & 0xFFFF < 0x10000) by (bit_vector);
    (lo as u32, hi as u32)
}


/// The tray icon button that was released.
#[derive(Debug, Clone, Copy, PartialEq, Eq)]
pub enum TrayButton {
    Left,
    Right,
    Other,
}

/// The entries of the tray menu.
#[derive(Debug, Clone, Copy, PartialEq, Eq)]
pub enum MenuCommand {
    Show,
    Settings,
    LaunchAtLogin,
    Quit,
    Other,
}

/// A message to the window, with the parameters its answer depends on.
#[derive(Debug, Clone, Copy, PartialEq, Eq)]
pub enum WindowMessage {
    Create,
    /// The size of the non-client area is asked for.
    NcCalcSize,
    /// The non-client area is to be drawn active or inactive.
    NcActivate,
    /// Which part of the window, whose rectangle is `rect`, the cursor
    /// (packed in `lparam`) is over.
    NcHitTest { lparam: isize, rect: WindowRect },
    /// The window is activated or deactivated; `lparam` is the window that
    /// loses or gains the focus.
    Activate { wparam: usize, lparam: isize },
    /// The Escape key is pressed.
    EscapeKey,
    /// Another key is pressed.
    OtherKey,
    /// A tray icon button is released while the window is `visible` or not.
    TrayIcon { button: TrayButton, visible: bool },
    /// A tray menu entry is chosen.
    Command { command: MenuCommand },
    /// The client area was resized to the size packed in `lparam`.
    Size { lparam: isize },
    Paint,
    Destroy,
    /// Any other message, left to the system's default handling.
    Other,
}

/// What the platform does in answer to a message, in order.
#[derive(Debug, Clone, Copy, PartialEq, Eq)]
pub enum WindowAction {
    Show,
    Hide,
    /// Give the focus back to the window with this handle.
    FocusWindow { handle: isize },
    /// Bring this window to the foreground.
    FocusSelf,
    ShowTrayMenu,
    /// Leave the message loop.
    PostQuit,
    /// Resize the drawing surface.
    Resize { width: u32, height: u32 },
    /// Draw the window.
    Paint,
    /// Mark the client area as drawn.
    Validate,
    /// Release the application state held by the window.
    ReleaseApp,
    RemoveTrayIcon,
}

/// The value a message is answered with.
#[derive(Debug, Clone, Copy, PartialEq, Eq)]
pub enum MessageResult {
    /// Handled (zero).
    Handled,
    /// Handled, answered with true.
    True,
    /// The part of the window under the cursor.
    Hit { region: HitRegion },
    /// Left to the system's default handling.
    Default,
}

/// The window's state across messages: the handle of the window that had
/// the focus before this one was activated (zero for none).
#[derive(Debug, Clone, Copy, PartialEq, Eq)]
pub struct WindowState {
    pub previous_focus: isize,
}

/// The answer to a message: its value and the actions to carry out.
pub struct Response {
    pub result: MessageResult,
    pub actions: Vec<WindowAction>,
}

impl WindowState {
    /// The state before any message: no window to give the focus back to.
    pub fn new() -> (r: Self)
        ensures
            r.previous_focus == 0,
    {
        WindowState { previous_focus: 0 }
    }
}

/// Whether an activation message activates the window (its low word is not
/// zero).
pub open spec fn activating(wparam: usize) -> bool {
    wparam & 0xFFFF != 0
}

/// The state after message `m`: an activation by another window records
/// that window.
pub open spec fn next_state(s: WindowState, m: WindowMessage) -> WindowState {
    match m {
        WindowMessage::Activate { wparam, lparam } => if activating(wparam) && lparam != 0 {
            WindowState { previous_focus: lparam }
        } else {
            s
        },
        _ => s,
    }
}

/// The value message `m` is answered with, for resize borders `border`
/// wide.
pub open spec fn message_result(m: WindowMessage, border: i32) -> MessageResult {
    match m {
        WindowMessage::NcActivate => MessageResult::True,
        WindowMessage::NcHitTest { lparam, rect } => MessageResult::Hit {
            region: spec_hit_test(
                rect,
                signed_word(low_word(lparam)),
                signed_word(high_word(lparam)),
                border as int,
            ),
        },
        WindowMessage::Activate { .. } => MessageResult::Default,
        WindowMessage::Other => MessageResult::Default,
        _ => MessageResult::Handled,
    }
}

/// The actions in answer to message `m` in state `s`.
pub open spec fn message_actions(s: WindowState, m: WindowMessage) -> Seq<WindowAction> {
    match m {
        WindowMessage::EscapeKey => if s.previous_focus != 0 {
            seq![WindowAction::FocusWindow { handle: s.previous_focus }, WindowAction::Hide]
        } else {
            seq![WindowAction::Hide]
        },
        WindowMessage::TrayIcon { button, visible } => match button {
            TrayButton::Left => if visible {
                seq![WindowAction::Hide]
            } else {
                seq![WindowAction::Show, WindowAction::FocusSelf]
            },
            TrayButton::Right => seq![WindowAction::ShowTrayMenu],
            TrayButton::Other => seq![],
        },
        WindowMessage::Command { command } => match command {
            MenuCommand::Show => seq![WindowAction::Show, WindowAction::FocusSelf],
            MenuCommand::Quit => seq![WindowAction::Hide, WindowAction::PostQuit],
            _ => seq![],
        },
        WindowMessage::Size { lparam } => seq![
            WindowAction::Resize { width: low_word(lparam) as u32, height: high_word(lparam) as u32 },
        ],
        WindowMessage::Paint => seq![WindowAction::Paint, WindowAction::Validate],
        WindowMessage::Destroy => seq![
            WindowAction::ReleaseApp,
            WindowAction::RemoveTrayIcon,
            WindowAction::PostQuit,
        ],
        _ => seq![],
    }
}

/// Answers message `msg` in state `state`, for resize borders `border`
/// wide: the borderless window has no non-client area, the Escape key
/// hides it and gives the focus back, a left click on the tray icon shows
/// or hides it, a right click opens the tray menu.
pub fn handle_message(state: &mut WindowState, msg: WindowMessage, border: i32) -> (r: Response)
    ensures
        *final(state) == next_state(*old(state), msg),
        r.result == message_result(msg, border),
        r.actions@ == message_actions(*old(state), msg),
{
    let mut actions: Vec<WindowAction> = Vec::new();
    let result = match msg {
        WindowMessage::Create => MessageResult::Handled,
        WindowMessage::NcCalcSize => MessageResult::Handled,
        WindowMessage::NcActivate => MessageResult::True,
        WindowMessage::NcHitTest { lparam, rect } => {
            let (x, y) = cursor_position(lparam);
            MessageResult::Hit { region: hit_test(rect, x, y, border) }
        },
        WindowMessage::Activate { wparam, lparam } => {
            if (wparam & 0xFFFF) != 0 && lparam != 0 {
                state.previous_focus = lparam;
            }
            MessageResult::Default
        },
        WindowMessage::EscapeKey => {
            if state.previous_focus != 0 {
                actions.push(WindowAction::FocusWindow { handle: state.previous_focus });
            }
            actions.push(WindowAction::Hide);
            MessageResult::Handled
        },
        WindowMessage::OtherKey => MessageResult::Handled,
        WindowMessage::TrayIcon { button, visible } => {
            match button {
                TrayButton::Left => {
                    if visible {
                        actions.push(WindowAction::Hide);
                    } else {
                        actions.push(WindowAction::Show);
                        actions.push(WindowAction::FocusSelf);
                    }
                },
                TrayButton::Right => {
                    actions.push(WindowAction::ShowTrayMenu);
                },
                TrayButton::Other => {},
            }
            MessageResult::Handled
        },
        WindowMessage::Command { command } => {
            match command {
                MenuCommand::Show => {
                    actions.push(WindowAction::Show);
                    actions.push(WindowAction::FocusSelf);
                },
                MenuCommand::Quit => {
                    actions.push(WindowAction::Hide);
                    actions.push(WindowAction::PostQuit);
                },
                _ => {},
            }
            MessageResult::Handled
        },
        WindowMessage::Size { lparam } => {
            let (width, height) = client_size(lparam);
            actions.push(WindowAction::Resize { width, height });
            MessageResult::Handled
        },
        WindowMessage::Paint => {
            actions.push(WindowAction::Paint);
            actions.push(WindowAction::Validate);
            MessageResult::Handled
        },
        WindowMessage::Destroy => {
            actions.push(WindowAction::ReleaseApp);
            actions.push(WindowAction::RemoveTrayIcon);
            actions.push(WindowAction::PostQuit);
            MessageResult::Handled
        },
        WindowMessage::Other => MessageResult::Default,
    };
    proof {
        assert(actions@ =~= message_actions(*old(state), msg));
    }
    Response { result, actions }
}


/// Half of `d`, rounded toward zero.
pub open spec fn half_toward_zero(d: int) -> int {
    if d >= 0 {
        d / 2
    } else {
        -((-d) / 2)
    }
}

/// Where a window `width` by `height` opens so that it is centred on a
/// screen `screen_width` by `screen_height`: the top-left corner.
pub fn window_origin(screen_width: i32, screen_height: i32, width: i32, height: i32) -> (r: (
    i32,
    i32,
))
    ensures
        r.0 == half_toward_zero(screen_width - width),
        r.1 == half_toward_zero(screen_height - height),
{
    (centred(screen_width, width), centred(screen_height, height))
}

/// Half of `outer - inner`, rounded toward zero.
fn centred(outer: i32, inner: i32) -> (r: i32)
    ensures
        r == half_toward_zero(outer - inner),
{
    let d: i64 = outer as i64 - inner as i64;
    if d >= 0 {
        (d / 2) as i32
    } else {
        (-((-d) / 2)) as i32
    }
}

/// What to do with the drawing surface before drawing.
#[derive(Debug, Clone, Copy, PartialEq, Eq)]
pub enum TargetPlan {
    /// The client area is empty: draw nothing.
    Skip,
    /// The surface has the client area's size: keep it.
    Keep,
    /// Make a surface of this size (there is none, or its size differs).
    Create { width: u32, height: u32 },
}

/// The width of a client rectangle, as the platform reports it.
pub open spec fn rect_width(r: WindowRect) -> u32 {
    (r.right - r.left) as u32
}

/// The height of a client rectangle.
pub open spec fn rect_height(r: WindowRect) -> u32 {
    (r.bottom - r.top) as u32
}

/// The plan for the client rectangle `client` when the surface, if there is
/// one, has size `current`.
pub open spec fn spec_target_plan(client: WindowRect, current: Option<(u32, u32)>) -> TargetPlan {
    let w = rect_width(client);
    let h = rect_height(client);
    if w == 0 || h == 0 {
        TargetPlan::Skip
    } else if current == Some((w, h)) {
        TargetPlan::Keep
    } else {
        TargetPlan::Create { width: w, height: h }
    }
}

/// Whether the drawing surface, of size `current` if there is one, is to be
/// kept, made anew for the client rectangle `client`, or not drawn on.
pub fn target_plan(client: WindowRect, current: Option<(u32, u32)>) -> (r: TargetPlan)
    ensures
        r == spec_target_plan(client, current),
{
    let w: u32 = (client.right as i64 - client.left as i64) as u32;
    let h: u32 = (client.bottom as i64 - client.top as i64) as u32;
    if w == 0 || h == 0 {
        return TargetPlan::Skip;
    }
    match current {
        Some((cw, ch)) => if cw == w && ch == h {
            TargetPlan::Keep
        } else {
            TargetPlan::Create { width: w, height: h }
        },
        None => TargetPlan::Create { width: w, height: h },
    }
}

/// The number of keys the key list shows.
pub const VISIBLE_KEYS: usize = 20;

/// The distance from the top of the window to the first line.
pub const LIST_TOP: u32 = 10;

/// The height of a line of the key list.
pub const LINE_HEIGHT: u32 = 24;

/// A line of text and the distance from the top of the window to its top.
pub struct TextLine {
    pub text: String,
    pub top: u32,
}

/// The line after the visible keys when `n` keys are hidden.
pub open spec fn more_text(n: nat) -> Seq<char> {
    "... and "@ + decimal(n) + " more"@
}

/// The number of lines of the key list for `n` keys.
pub open spec fn line_count(n: nat) -> nat {
    if n > VISIBLE_KEYS {
        (VISIBLE_KEYS + 1) as nat
    } else {
        n
    }
}

/// The lines of the key list: the first keys, one per line from the top,
/// then, if keys are left over, a line that counts them.
pub fn key_list_lines(keys: &Vec<Key>) -> (r: Vec<TextLine>)
    ensures
        r.len() == line_count(keys.len() as nat),
        forall|i: int|
            0 <= i < r.len() && i < VISIBLE_KEYS ==> #[trigger] r[i].text@ == keys[i]@ && r[i].top
                == LIST_TOP + LINE_HEIGHT * i,
        keys.len() > VISIBLE_KEYS ==> r[VISIBLE_KEYS as int].text@ == more_text(
            (keys.len() - VISIBLE_KEYS) as nat,
        ) && r[VISIBLE_KEYS as int].top == LIST_TOP + LINE_HEIGHT * VISIBLE_KEYS,
{
    let mut lines: Vec<TextLine> = Vec::new();
    let shown: usize = if keys.len() > VISIBLE_KEYS {
        VISIBLE_KEYS
    } else {
        keys.len()
    };
    let mut i: usize = 0;
    while i < shown
        invariant
            shown <= keys.len(),
            shown <= VISIBLE_KEYS,
            i <= shown,
            lines.len() == i,
            forall|j: int|
                0 <= j < i ==> #[trigger] lines[j].text@ == keys[j]@ && lines[j].top == LIST_TOP
                    + LINE_HEIGHT * j,
        decreases shown - i,
    {
        let top: u32 = LIST_TOP + LINE_HEIGHT * (i as u32);
        lines.push(TextLine { text: keys[i].as_str().to_owned(), top });
        i = i + 1;
    }
    if keys.len() > VISIBLE_KEYS {
        let hidden: u64 = (keys.len() - VISIBLE_KEYS) as u64;
        let mut text = "... and ".to_owned();
        push_decimal(&mut text, hidden);
        text.append(" more");
        proof {
            reveal_strlit("... and ");
            reveal_strlit(" more");
        }
        let top: u32 = LIST_TOP + LINE_HEIGHT * (VISIBLE_KEYS as u32);
        lines.push(TextLine { text, top });
    }
    lines
}

} // verus!
