//! Window events, control flow and physical sizes, and the decisions that
//! turn the platforms' window messages into window events.

use vstd::prelude::*;

verus! {

/// How the event loop goes on after the events at hand are handled.
#[derive(Debug, Clone, Copy, PartialEq, Eq, Structural)]
pub enum ControlFlow {
    /// Poll for new events right away.
    Poll,
    /// Wait for the next event.
    Wait,
    /// Leave the event loop.
    Exit,
}

/// A position in physical pixels.
#[derive(Debug, Clone, Copy, PartialEq, Eq, Structural)]
pub struct PhysicalPosition {
    pub x: i32,
    pub y: i32,
}

impl PhysicalPosition {
    /// Creates a position from its coordinates.
    pub fn new(x: i32, y: i32) -> (r: Self)
        ensures
            r.x == x,
            r.y == y,
    {
        PhysicalPosition { x, y }
    }
}

/// A size in physical pixels.
#[derive(Debug, Clone, Copy, PartialEq, Eq, Structural)]
pub struct PhysicalSize {
    pub width: u32,
    pub height: u32,
}

impl PhysicalSize {
    /// Creates a size from its width and height.
    pub fn new(width: u32, height: u32) -> (r: Self)
        ensures
            r.width == width,
            r.height == height,
    {
        PhysicalSize { width, height }
    }
}

/// What happened to a window.
#[derive(Debug, Clone, Copy, PartialEq, Eq, Structural)]
pub enum WindowEvent {
    Created,
    CloseRequested,
    Closed,
    FocusChanged(bool),
    Resized(PhysicalSize),
}

/// The X11 event type of a window creation.
pub const X11_CREATE_NOTIFY: i32 = 16;
/// The X11 event type of a window destruction.
pub const X11_DESTROY_NOTIFY: i32 = 17;
/// The X11 event type of a window gaining focus.
pub const X11_FOCUS_IN: i32 = 9;
/// The X11 event type of a window losing focus.
pub const X11_FOCUS_OUT: i32 = 10;
/// The X11 event type of a resize request.
pub const X11_RESIZE_REQUEST: i32 = 25;

/// The window event that an X11 event of type `ty` stands for, if any.
/// Creations and destructions count only for windows of the event loop
/// (`known_window`); a resize request carries the requested size.
pub open spec fn x11_event_spec(ty: i32, known_window: bool, width: i32, height: i32) -> Option<
    WindowEvent,
> {
    if ty == X11_CREATE_NOTIFY {
        if known_window {
            Some(WindowEvent::Created)
        } else {
            None
        }
    } else if ty == X11_DESTROY_NOTIFY {
        if known_window {
            Some(WindowEvent::Closed)
        } else {
            None
        }
    } else if ty == X11_FOCUS_IN {
        Some(WindowEvent::FocusChanged(true))
    } else if ty == X11_FOCUS_OUT {
        Some(WindowEvent::FocusChanged(false))
    } else if ty == X11_RESIZE_REQUEST {
        Some(
            WindowEvent::Resized(
                PhysicalSize { width: width as u32, height: height as u32 },
            ),
        )
    } else {
        None
    }
}

/// Translates an X11 event into the window event it stands for, if any.
pub fn translate_x11_event(ty: i32, known_window: bool, width: i32, height: i32) -> (r: Option<
    WindowEvent,
>)
    ensures
        r == x11_event_spec(ty, known_window, width, height),
{
    if ty == X11_CREATE_NOTIFY {
        if known_window {
            Some(WindowEvent::Created)
        } else {
            None
        }
    } else if ty == X11_DESTROY_NOTIFY {
        if known_window {
            Some(WindowEvent::Closed)
        } else {
            None
        }
    } else if ty == X11_FOCUS_IN {
        Some(WindowEvent::FocusChanged(true))
    } else if ty == X11_FOCUS_OUT {
        Some(WindowEvent::FocusChanged(false))
    } else if ty == X11_RESIZE_REQUEST {
        Some(WindowEvent::Resized(PhysicalSize::new(width as u32, height as u32)))
    } else {
        None
    }
}

/// What the event loop does once the pending events are handled.
#[derive(Debug, Clone, Copy, PartialEq, Eq, Structural)]
pub enum LoopStep {
    /// Leave the loop.
    Leave,
    /// Go on polling.
    PollAgain,
    /// Block until the next event arrives.
    WaitForEvent,
}

/// Decides how the event loop goes on under the given control flow.
pub fn next_loop_step(control_flow: ControlFlow) -> (r: LoopStep)
    ensures
        control_flow == ControlFlow::Exit ==> r == LoopStep::Leave,
        control_flow == ControlFlow::Poll ==> r == LoopStep::PollAgain,
        control_flow == ControlFlow::Wait ==> r == LoopStep::WaitForEvent,
{
    match control_flow {
        ControlFlow::Exit => LoopStep::Leave,
        ControlFlow::Poll => LoopStep::PollAgain,
        ControlFlow::Wait => LoopStep::WaitForEvent,
    }
}

/// The Win32 message of a window creation.
pub const WM_CREATE: u32 = 0x0001;
/// The Win32 message of a window destruction.
pub const WM_DESTROY: u32 = 0x0002;
/// The Win32 message of a window resize.
pub const WM_SIZE: u32 = 0x0005;
/// The Win32 message of a window gaining focus.
pub const WM_SETFOCUS: u32 = 0x0007;
/// The Win32 message of a window losing focus.
pub const WM_KILLFOCUS: u32 = 0x0008;
/// The Win32 message of a close request.
pub const WM_CLOSE: u32 = 0x0010;
/// The Win32 message of a window being resized by the user.
pub const WM_SIZING: u32 = 0x0214;

/// The window event that a Win32 message stands for, if any. A `WM_SIZE`
/// carries the new width in the low 16 bits of `lparam` and the height above
/// them; a `WM_SIZING` carries the size of the rectangle that `lparam` points
/// to, given here as `sizing`.
pub open spec fn win32_event_spec(msg: u32, lparam: isize, sizing: PhysicalSize) -> Option<
    WindowEvent,
> {
    if msg == WM_CREATE {
        Some(WindowEvent::Created)
    } else if msg == WM_CLOSE {
        Some(WindowEvent::CloseRequested)
    } else if msg == WM_DESTROY {
        Some(WindowEvent::Closed)
    } else if msg == WM_SETFOCUS {
        Some(WindowEvent::FocusChanged(true))
    } else if msg == WM_KILLFOCUS {
        Some(WindowEvent::FocusChanged(false))
    } else if msg == WM_SIZING {
        Some(WindowEvent::Resized(sizing))
    } else if msg == WM_SIZE {
        Some(
            WindowEvent::Resized(
                PhysicalSize { width: (lparam & 0xffff) as u32, height: (lparam >> 16) as u32 },
            ),
        )
    } else {
        None
    }
}

/// Translates a Win32 window message into the window event it stands for, if
/// any.
pub fn translate_win32_message(msg: u32, lparam: isize, sizing: PhysicalSize) -> (r: Option<
    WindowEvent,
>)
    ensures
        r == win32_event_spec(msg, lparam, sizing),
{
    if msg == WM_CREATE {
        Some(WindowEvent::Created)
    } else if msg == WM_CLOSE {
        Some(WindowEvent::CloseRequested)
    } else if msg == WM_DESTROY {
        Some(WindowEvent::Closed)
    } else if msg == WM_SETFOCUS {
        Some(WindowEvent::FocusChanged(true))
    } else if msg == WM_KILLFOCUS {
        Some(WindowEvent::FocusChanged(false))
    } else if msg == WM_SIZING {
        Some(WindowEvent::Resized(sizing))
    } else if msg == WM_SIZE {
        let width = (lparam & 0xffff) as u32;
        let height = (lparam >> 16) as u32;
        Some(WindowEvent::Resized(PhysicalSize::new(width, height)))
    } else {
        None
    }
}

/// Whether a window procedure answers the Win32 message itself, with 0, rather
/// than handing it on to the default window procedure: creation, close
/// requests and focus changes are answered; destruction, sizing and all other
/// messages go on to the default procedure.
pub fn win32_answers_itself(msg: u32) -> (r: bool)
    ensures
        r == (msg == WM_CREATE || msg == WM_CLOSE || msg == WM_SETFOCUS || msg == WM_KILLFOCUS),
{
    msg == WM_CREATE || msg == WM_CLOSE || msg == WM_SETFOCUS || msg == WM_KILLFOCUS
}

/// The window style bits of a title bar and a sizing border.
pub const WINDOWED_STYLE: u32 = 0x00C00000 | 0x00040000;

/// The extended window style bits of the window edges.
pub const WINDOWED_EX_STYLE: u32 = 0x00000001 | 0x00000100 | 0x00000200 | 0x00020000;

/// The window styles of a fullscreen window made from one with the given
/// styles: without title bar, sizing border and edges.
pub fn fullscreen_styles(style: u32, exstyle: u32) -> (r: (u32, u32))
    ensures
        r.0 == style & !WINDOWED_STYLE,
        r.1 == exstyle & !WINDOWED_EX_STYLE,
{
    (style & !WINDOWED_STYLE, exstyle & !WINDOWED_EX_STYLE)
}

/// The window style bits that let the user resize and maximize a window.
pub const RESIZABLE_STYLE: u32 = 0x00010000 | 0x00040000;

/// The window style of a window made resizable, or fixed-size, from one with
/// the given style.
pub fn resizable_style(style: u32, resizable: bool) -> (r: u32)
    ensures
        r == (if resizable {
            style | RESIZABLE_STYLE
        } else {
            style & !RESIZABLE_STYLE
        }),
{
    if resizable {
        style | RESIZABLE_STYLE
    } else {
        style & !RESIZABLE_STYLE
    }
}

/// The X11 size hint flag of a minimum size.
pub const X11_P_MIN_SIZE: i64 = 1 << 4;
/// The X11 size hint flag of a maximum size.
pub const X11_P_MAX_SIZE: i64 = 1 << 5;

/// The part of the X11 window manager size hints that windows set.
#[derive(Debug, Clone, Copy, PartialEq, Eq, Structural)]
pub struct SizeHints {
    pub flags: i64,
    pub min_width: i32,
    pub min_height: i32,
    pub max_width: i32,
    pub max_height: i32,
}

/// The size hints of a window of the given inner size: none for a resizable
/// window, and a minimum and a maximum both equal to the size for a window of
/// fixed size.
pub fn size_hints(resizable: bool, size: PhysicalSize) -> (r: SizeHints)
    ensures
        resizable ==> r == (SizeHints {
            flags: 0,
            min_width: 0,
            min_height: 0,
            max_width: 0,
            max_height: 0,
        }),
        !resizable ==> r.flags == X11_P_MIN_SIZE | X11_P_MAX_SIZE,
        !resizable ==> r.min_width == size.width as i32 && r.max_width == size.width as i32,
        !resizable ==> r.min_height == size.height as i32 && r.max_height == size.height as i32,
{
    if resizable {
        SizeHints { flags: 0, min_width: 0, min_height: 0, max_width: 0, max_height: 0 }
    } else {
        let width = size.width as i32;
        let height = size.height as i32;
        SizeHints {
            flags: X11_P_MIN_SIZE | X11_P_MAX_SIZE,
            min_width: width,
            min_height: height,
            max_width: width,
            max_height: height,
        }
    }
}

/// The users of a thread's shared display connection after one more user:
/// the new count, and whether the connection has to be opened now.
pub open spec fn acquire_spec(users: nat) -> (nat, bool) {
    (users + 1, users == 0)
}

/// The users of a thread's shared display connection after one user leaves:
/// the new count, and whether the connection has to be closed now.
pub open spec fn release_spec(users: nat) -> (nat, bool) {
    ((users - 1) as nat, users == 1)
}

/// Counts the users of a shared display connection, which is open exactly
/// while it has users.
#[derive(Debug)]
pub struct ConnectionCount {
    users: usize,
}

impl ConnectionCount {
    /// The number of users.
    pub closed spec fn users(&self) -> nat {
        self.users as nat
    }

    /// A count without users.
    pub fn new() -> (r: Self)
        ensures
            r.users() == 0,
    {
        ConnectionCount { users: 0 }
    }

    /// Returns the number of users.
    pub fn count(&self) -> (r: usize)
        ensures
            r == self.users(),
    {
        self.users
    }

    /// Adds a user; returns whether the connection has to be opened for it.
    pub fn acquire(&mut self) -> (open: bool)
        requires
            old(self).users() < usize::MAX,
        ensures
            (final(self).users(), open) == acquire_spec(old(self).users()),
    {
        let open = self.users == 0;
        self.users = self.users + 1;
        open
    }

    /// Removes a user; returns whether the connection has to be closed now.
    pub fn release(&mut self) -> (close: bool)
        requires
            old(self).users() > 0,
        ensures
            (final(self).users(), close) == release_spec(old(self).users()),
    {
        self.users = self.users - 1;
        self.users == 0
    }
}

/// A user that comes and goes leaves the count as it was, and the connection
/// is opened for it exactly when it is closed after it: when it was the only
/// user.
pub proof fn lemma_acquire_release(users: nat)
    ensures
        release_spec(acquire_spec(users).0).0 == users,
        release_spec(acquire_spec(users).0).1 == acquire_spec(users).1,
{
}

/// Converts the bytes of a string into a NUL-terminated C string.
pub fn to_cstring(bytes: &[u8]) -> (r: Vec<u8>)
    ensures
        r@ == bytes@.push(0u8),
{
    let mut result: Vec<u8> = Vec::new();
    let n = bytes.len();
    for i in 0..n
        invariant
            n == bytes@.len(),
            result@ == bytes@.subrange(0, i as int),
    {
        result.push(bytes[i]);
        assert(result@ =~= bytes@.subrange(0, i + 1));
    }
    result.push(0);
    assert(result@ =~= bytes@.push(0u8));
    result
}

} // verus!
