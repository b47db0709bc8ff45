use vstd::prelude::*;

verus! {

/// Mouse button identifier.
#[derive(Debug, Clone, Copy, PartialEq, Eq, Structural)]
pub enum MouseButton {
    Left,
    Right,
    Middle,
}

/// What a [`WindowShell`] is made with: the window title and its initial
/// size in physical pixels.
pub struct WindowShellView {
    pub title: Seq<char>,
    pub width: u32,
    pub height: u32,
}

/// The settings of the platform window: its title and initial size.  The
/// event loop that opens the window and drives it lives with the platform
/// code.
pub struct WindowShell {
    title: String,
    width: u32,
    height: u32,
}

impl View for WindowShell {
    type V = WindowShellView;

    closed spec fn view(&self) -> WindowShellView {
        WindowShellView { title: self.title@, width: self.width, height: self.height }
    }
}

/// The error type of [`WindowShell::new`].  Creating the settings never
/// fails, so no value of it is ever returned.
#[derive(Debug, Clone, Copy, PartialEq, Eq, Structural)]
pub struct ShellError;

impl WindowShell {
    /// Creates a window shell with the given title and dimensions.  This
    /// always succeeds.
    pub fn new(title: &str, width: u32, height: u32) -> (r: Result<WindowShell, ShellError>)
        ensures
            r is Ok,
            r->Ok_0@.title == title@,
            r->Ok_0@.width == width,
            r->Ok_0@.height == height,
    {
        Ok(WindowShell { title: title.to_string(), width, height })
    }

    /// The window title.
    pub fn title(&self) -> (t: &str)
        ensures
            t@ == self@.title,
    {
        self.title.as_str()
    }

    /// The initial width in physical pixels.
    pub fn width(&self) -> (w: u32)
        ensures
            w == self@.width,
    {
        self.width
    }

    /// The initial height in physical pixels.
    pub fn height(&self) -> (h: u32)
        ensures
            h == self@.height,
    {
        self.height
    }
}

/// Byte `c` (0 = red, 1 = green, 2 = blue, 3 = alpha) of the colour a frame
/// is cleared to: opaque wheat, `#F5DEB3`.
pub open spec fn wheat_byte(c: int) -> u8 {
    if c == 0 {
        0xF5
    } else if c == 1 {
        0xDE
    } else if c == 2 {
        0xB3
    } else {
        0xFF
    }
}

/// The number of bytes of an RGBA frame of `width` × `height` pixels.
pub fn frame_byte_len(width: u32, height: u32) -> (n: usize)
    requires
        width * height * 4 <= u32::MAX,
    ensures
        n == width * height * 4,
{
    assert(width * height * 4 <= u32::MAX);
    let pixels: u32 = width * height;
    (pixels * 4) as usize
}

/// Resizes `buffer` to an RGBA frame of `width` × `height` pixels and
/// fills every pixel with opaque wheat.
pub fn clear_frame(buffer: &mut Vec<u8>, width: u32, height: u32)
    requires
        width * height * 4 <= u32::MAX,
    ensures
        final(buffer)@.len() == width * height * 4,
        forall|i: int| 0 <= i < final(buffer)@.len() ==> #[trigger] final(buffer)@[i] == wheat_byte(i % 4),
{
    let n = frame_byte_len(width, height);
    buffer.resize(n, 0u8);
    let pixels = n / 4;
    let mut p: usize = 0;
    while p < pixels
        invariant
            buffer@.len() == n,
            n == width * height * 4,
            pixels * 4 == n,
            p <= pixels,
            forall|i: int| 0 <= i < 4 * p ==> #[trigger] buffer@[i] == wheat_byte(i % 4),
        decreases pixels - p,
    {
        let base = 4 * p;
        buffer[base] = 0xF5;
        buffer[base + 1] = 0xDE;
        buffer[base + 2] = 0xB3;
        buffer[base + 3] = 0xFF;
        assert forall|i: int| 0 <= i < 4 * (p + 1) implies #[trigger] buffer@[i] == wheat_byte(i % 4) by {
            if i >= 4 * p {
                assert(i % 4 == i - 4 * p);
            }
        }
        p = p + 1;
    }
}

/// The display's native pixel for an RGB colour: `0x00RRGGBB`.
pub open spec fn native_pixel(r: u8, g: u8, b: u8) -> u32 {
    (r * 0x10000 + g * 0x100 + b) as u32
}

/// Converts RGBA bytes into native `0x00RRGGBB` pixels.  Pixel `p` of
/// `dst` is made from bytes `4p`, `4p + 1`, `4p + 2` of `rgba` (alpha is
/// dropped), for as many whole pixels as both sides hold; the rest of
/// `dst` is left as it was.
pub fn pack_frame(dst: &mut [u32], rgba: &[u8])
    ensures
        final(dst)@.len() == old(dst)@.len(),
        forall|p: int|
            0 <= p < final(dst)@.len() ==> #[trigger] final(dst)@[p] == if 4 * p + 4 <= rgba@.len() {
                native_pixel(rgba@[4 * p], rgba@[4 * p + 1], rgba@[4 * p + 2])
            } else {
                old(dst)@[p]
            },
{
    let bytes = rgba.len();
    let count = if dst.len() < bytes / 4 {
        dst.len()
    } else {
        bytes / 4
    };
    let mut p: usize = 0;
    while p < count
        invariant
            dst@.len() == old(dst)@.len(),
            count <= dst@.len(),
            count <= rgba@.len() / 4,
            bytes == rgba@.len(),
            count == (if old(dst)@.len() < rgba@.len() / 4 { old(dst)@.len() as int } else { (rgba@.len() / 4) as int }),
            p <= count,
            forall|q: int|
                0 <= q < dst@.len() ==> #[trigger] dst@[q] == if q < p {
                    native_pixel(rgba@[4 * q], rgba@[4 * q + 1], rgba@[4 * q + 2])
                } else {
                    old(dst)@[q]
                },
        decreases count - p,
    {
        assert(4 * p + 3 < rgba@.len()) by (nonlinear_arith)
            requires
                p < count,
                count <= rgba@.len() / 4,
        ;
        let r = rgba[4 * p];
        let g = rgba[4 * p + 1];
        let b = rgba[4 * p + 2];
        let v: u32 = ((r as u32) << 16) | ((g as u32) << 8) | (b as u32);
        assert(v == native_pixel(r, g, b)) by (bit_vector)
            requires
                v == ((r as u32) << 16) | ((g as u32) << 8) | (b as u32),
        ;
        dst[p] = v;
        p = p + 1;
    }
}


/// A platform window event, reduced to the plain values the shell decides
/// on.  Positions and scale factors stay with the platform layer; a resize
/// says whether the display scale factor changed with it.
#[derive(Debug, Clone, Copy, PartialEq, Eq, Structural)]
pub enum PlatformEvent {
    /// The application was resumed (the window may now be created).
    Resumed,
    /// The user asked to close the window.
    CloseRequested,
    /// The window was resized to `width` × `height` physical pixels.
    Resized { width: u32, height: u32, scale_changed: bool },
    /// The window must be redrawn.
    RedrawRequested,
    /// The cursor moved.
    CursorMoved,
    /// A mouse button was pressed or released; `None` for buttons the shell
    /// does not report.
    MouseInput { pressed: bool, button: Option<MouseButton> },
    /// Any other event.
    Other,
}

/// What the shell hands to the application's event handler.
#[derive(Debug, Clone, Copy, PartialEq, Eq, Structural)]
pub enum ShellNotice {
    Redraw,
    CursorMoved,
    MouseButtonPressed(MouseButton),
    MouseButtonReleased(MouseButton),
    Resized { width: u32, height: u32 },
    ScaleFactorChanged,
}

/// One step of platform work the shell asks for, in order.
#[derive(Debug, Clone, Copy, PartialEq, Eq, Structural)]
pub enum ShellAction {
    /// Create the window, its pixel surface sized `width` × `height`, and
    /// record the display scale factor.
    OpenWindow { width: u32, height: u32 },
    /// Leave the event loop.
    Exit,
    /// Resize the pixel surface.
    ResizeSurface { width: u32, height: u32 },
    /// Resize the RGBA buffer to `len` bytes (new bytes are zero).
    ResizeBuffer { len: usize },
    /// Clear the RGBA buffer to a `width` × `height` wheat frame.
    ClearFrame { width: u32, height: u32 },
    /// Call the application's handler.
    Notify(ShellNotice),
    /// Convert the RGBA buffer to native pixels and show it.
    Present,
    /// Ask the platform for a redraw.
    RequestRedraw,
}

/// The shell's own state: the current frame size and whether the window
/// exists.
pub struct ShellStateView {
    pub width: u32,
    pub height: u32,
    pub window_open: bool,
}

impl ShellStateView {
    /// An open window has a non-empty frame whose byte count fits in `u32`.
    pub open spec fn valid(self) -> bool {
        self.window_open ==> (self.width > 0 && self.height > 0 && self.width * self.height * 4 <= u32::MAX)
    }

    /// `event` can be handled: a window is only opened, and only resized,
    /// to a non-empty frame whose byte count fits in `u32`.
    pub open spec fn accepts(self, event: PlatformEvent) -> bool {
        match event {
            PlatformEvent::Resumed => !self.window_open ==> (self.width > 0 && self.height > 0
                && self.width * self.height * 4 <= u32::MAX),
            PlatformEvent::Resized { width, height, .. } => self.window_open ==> (width > 0
                && height > 0 && width * height * 4 <= u32::MAX),
            _ => true,
        }
    }

    /// The state after `event`.
    pub open spec fn next(self, event: PlatformEvent) -> ShellStateView {
        match event {
            PlatformEvent::Resumed => ShellStateView { window_open: true, ..self },
            PlatformEvent::Resized { width, height, .. } => if self.window_open {
                ShellStateView { width, height, ..self }
            } else {
                self
            },
            _ => self,
        }
    }

    /// The platform work for `event`, in order.  Nothing happens before
    /// the window exists, and a resumed event opens it only once.
    pub open spec fn actions(self, event: PlatformEvent) -> Seq<ShellAction> {
        match event {
            PlatformEvent::Resumed => if self.window_open {
                Seq::empty()
            } else {
                seq![
                    ShellAction::OpenWindow { width: self.width, height: self.height },
                    ShellAction::ResizeBuffer { len: (self.width * self.height * 4) as usize },
                ]
            },
            _ => if !self.window_open {
                Seq::empty()
            } else {
                match event {
                    PlatformEvent::CloseRequested => seq![ShellAction::Exit],
                    PlatformEvent::Resized { width, height, scale_changed } => seq![
                        ShellAction::ResizeSurface { width, height },
                        ShellAction::ResizeBuffer { len: (width * height * 4) as usize },
                    ] + (if scale_changed {
                        seq![ShellAction::Notify(ShellNotice::ScaleFactorChanged)]
                    } else {
                        Seq::empty()
                    }) + seq![
                        ShellAction::Notify(ShellNotice::Resized { width, height }),
                        ShellAction::RequestRedraw,
                    ],
                    PlatformEvent::RedrawRequested => seq![
                        ShellAction::ClearFrame { width: self.width, height: self.height },
                        ShellAction::Notify(ShellNotice::Redraw),
                        ShellAction::Present,
                    ],
                    PlatformEvent::CursorMoved => seq![ShellAction::Notify(ShellNotice::CursorMoved)],
                    PlatformEvent::MouseInput { pressed, button } => match button {
                        Some(b) => seq![
                            ShellAction::Notify(
                                if pressed {
                                    ShellNotice::MouseButtonPressed(b)
                                } else {
                                    ShellNotice::MouseButtonReleased(b)
                                },
                            ),
                            ShellAction::RequestRedraw,
                        ],
                        None => Seq::empty(),
                    },
                    _ => Seq::empty(),
                }
            },
        }
    }
}

/// The decisions of the platform shell: what each window event leads to.
pub struct ShellState {
    width: u32,
    height: u32,
    window_open: bool,
}

impl View for ShellState {
    type V = ShellStateView;

    closed spec fn view(&self) -> ShellStateView {
        ShellStateView { width: self.width, height: self.height, window_open: self.window_open }
    }
}

impl ShellState {
    /// The state before the window exists, sized as `shell` asks.
    pub fn new(shell: &WindowShell) -> (state: ShellState)
        ensures
            state@.width == shell@.width,
            state@.height == shell@.height,
            !state@.window_open,
            state@.valid(),
    {
        ShellState { width: shell.width(), height: shell.height(), window_open: false }
    }

    /// The current frame width in physical pixels.
    pub fn width(&self) -> (w: u32)
        ensures
            w == self@.width,
    {
        self.width
    }

    /// The current frame height in physical pixels.
    pub fn height(&self) -> (h: u32)
        ensures
            h == self@.height,
    {
        self.height
    }

    /// Handles one window event: updates the state and returns the platform
    /// work to do, in order.
    pub fn step(&mut self, event: PlatformEvent) -> (actions: Vec<ShellAction>)
        requires
            old(self)@.valid(),
            old(self)@.accepts(event),
        ensures
            final(self)@ == old(self)@.next(event),
            final(self)@.valid(),
            actions@ == old(self)@.actions(event),
    {
        let mut actions: Vec<ShellAction> = Vec::new();
        match event {
            PlatformEvent::Resumed => {
                if !self.window_open {
                    let len = frame_byte_len(self.width, self.height);
                    actions.push(ShellAction::OpenWindow { width: self.width, height: self.height });
                    actions.push(ShellAction::ResizeBuffer { len });
                    self.window_open = true;
                }
            },
            _ => {
                if self.window_open {
                    match event {
                        PlatformEvent::CloseRequested => {
                            actions.push(ShellAction::Exit);
                        },
                        PlatformEvent::Resized { width, height, scale_changed } => {
                            self.width = width;
                            self.height = height;
                            let len = frame_byte_len(width, height);
                            actions.push(ShellAction::ResizeSurface { width, height });
                            actions.push(ShellAction::ResizeBuffer { len });
                            if scale_changed {
                                actions.push(ShellAction::Notify(ShellNotice::ScaleFactorChanged));
                            }
                            actions.push(ShellAction::Notify(ShellNotice::Resized { width, height }));
                            actions.push(ShellAction::RequestRedraw);
                        },
                        PlatformEvent::RedrawRequested => {
                            actions.push(ShellAction::ClearFrame { width: self.width, height: self.height });
                            actions.push(ShellAction::Notify(ShellNotice::Redraw));
                            actions.push(ShellAction::Present);
                        },
                        PlatformEvent::CursorMoved => {
                            actions.push(ShellAction::Notify(ShellNotice::CursorMoved));
                        },
                        PlatformEvent::MouseInput { pressed, button } => {
                            if let Some(b) = button {
                                let notice = if pressed {
                                    ShellNotice::MouseButtonPressed(b)
                                } else {
                                    ShellNotice::MouseButtonReleased(b)
                                };
                                actions.push(ShellAction::Notify(notice));
                                actions.push(ShellAction::RequestRedraw);
                            }
                        },
                        _ => {},
                    }
                }
            },
        }
        assert(actions@ =~= old(self)@.actions(event));
        actions
    }
}

} // verus!
