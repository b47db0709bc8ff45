use lath::shell::{clear_frame, frame_byte_len, pack_frame, MouseButton, WindowShell};

#[test]
fn window_shell_keeps_settings() {
    let shell = WindowShell::new("Lath", 800, 600).unwrap();
    assert_eq!(shell.title(), "Lath");
    assert_eq!(shell.width(), 800);
    assert_eq!(shell.height(), 600);
}

#[test]
fn mouse_buttons_compare() {
    assert_eq!(MouseButton::Left, MouseButton::Left);
    assert_ne!(MouseButton::Left, MouseButton::Right);
    assert_ne!(MouseButton::Middle, MouseButton::Right);
}

#[test]
fn frame_length_is_four_bytes_per_pixel() {
    assert_eq!(frame_byte_len(800, 600), 1_920_000);
    assert_eq!(frame_byte_len(0, 600), 0);
    assert_eq!(frame_byte_len(3, 2), 24);
}

#[test]
fn clear_frame_fills_wheat() {
    let mut buf = vec![1u8, 2, 3];
    clear_frame(&mut buf, 2, 2);
    assert_eq!(buf.len(), 16);
    for px in buf.chunks_exact(4) {
        assert_eq!(px, &[0xF5, 0xDE, 0xB3, 0xFF]);
    }
    // Shrinking works too.
    clear_frame(&mut buf, 1, 1);
    assert_eq!(buf, vec![0xF5, 0xDE, 0xB3, 0xFF]);
}

#[test]
fn pack_frame_makes_native_pixels() {
    let rgba = [0x12u8, 0x34, 0x56, 0x78, 0xFF, 0x00, 0x80, 0x01, 0xAA];
    let mut dst = [7u32; 3];
    pack_frame(&mut dst, &rgba);
    assert_eq!(dst, [0x0012_3456, 0x00FF_0080, 7]);

    let mut short = [0u32; 1];
    pack_frame(&mut short, &rgba);
    assert_eq!(short, [0x0012_3456]);
}

use lath::shell::{PlatformEvent, ShellAction, ShellNotice, ShellState};

fn opened(width: u32, height: u32) -> ShellState {
    let shell = WindowShell::new("t", width, height).unwrap();
    let mut state = ShellState::new(&shell);
    state.step(PlatformEvent::Resumed);
    state
}

#[test]
fn nothing_happens_before_the_window_exists() {
    let shell = WindowShell::new("t", 4, 3).unwrap();
    let mut state = ShellState::new(&shell);
    assert!(state.step(PlatformEvent::RedrawRequested).is_empty());
    assert!(state.step(PlatformEvent::CloseRequested).is_empty());
    assert!(state
        .step(PlatformEvent::Resized {
            width: 9,
            height: 9,
            scale_changed: true
        })
        .is_empty());
    assert_eq!((state.width(), state.height()), (4, 3));
}

#[test]
fn resumed_opens_the_window_once() {
    let shell = WindowShell::new("t", 4, 3).unwrap();
    let mut state = ShellState::new(&shell);
    assert_eq!(
        state.step(PlatformEvent::Resumed),
        vec![
            ShellAction::OpenWindow { width: 4, height: 3 },
            ShellAction::ResizeBuffer { len: 48 },
        ]
    );
    assert!(state.step(PlatformEvent::Resumed).is_empty());
}

#[test]
fn resize_updates_size_and_notifies() {
    let mut state = opened(4, 3);
    assert_eq!(
        state.step(PlatformEvent::Resized {
            width: 10,
            height: 5,
            scale_changed: false
        }),
        vec![
            ShellAction::ResizeSurface { width: 10, height: 5 },
            ShellAction::ResizeBuffer { len: 200 },
            ShellAction::Notify(ShellNotice::Resized { width: 10, height: 5 }),
            ShellAction::RequestRedraw,
        ]
    );
    assert_eq!((state.width(), state.height()), (10, 5));
    assert_eq!(
        state.step(PlatformEvent::Resized {
            width: 2,
            height: 2,
            scale_changed: true
        }),
        vec![
            ShellAction::ResizeSurface { width: 2, height: 2 },
            ShellAction::ResizeBuffer { len: 16 },
            ShellAction::Notify(ShellNotice::ScaleFactorChanged),
            ShellAction::Notify(ShellNotice::Resized { width: 2, height: 2 }),
            ShellAction::RequestRedraw,
        ]
    );
}

#[test]
fn redraw_clears_notifies_and_presents() {
    let mut state = opened(4, 3);
    assert_eq!(
        state.step(PlatformEvent::RedrawRequested),
        vec![
            ShellAction::ClearFrame { width: 4, height: 3 },
            ShellAction::Notify(ShellNotice::Redraw),
            ShellAction::Present,
        ]
    );
}

#[test]
fn input_events_are_reported() {
    let mut state = opened(4, 3);
    assert_eq!(
        state.step(PlatformEvent::CursorMoved),
        vec![ShellAction::Notify(ShellNotice::CursorMoved)]
    );
    assert_eq!(
        state.step(PlatformEvent::MouseInput {
            pressed: true,
            button: Some(MouseButton::Left)
        }),
        vec![
            ShellAction::Notify(ShellNotice::MouseButtonPressed(MouseButton::Left)),
            ShellAction::RequestRedraw,
        ]
    );
    assert_eq!(
        state.step(PlatformEvent::MouseInput {
            pressed: false,
            button: Some(MouseButton::Middle)
        }),
        vec![
            ShellAction::Notify(ShellNotice::MouseButtonReleased(MouseButton::Middle)),
            ShellAction::RequestRedraw,
        ]
    );
    assert!(state
        .step(PlatformEvent::MouseInput {
            pressed: true,
            button: None
        })
        .is_empty());
    assert!(state.step(PlatformEvent::Other).is_empty());
    assert_eq!(state.step(PlatformEvent::CloseRequested), vec![ShellAction::Exit]);
}

#[test]
fn window_shell_creation_never_fails() {
    assert!(WindowShell::new("", 0, 0).is_ok());
    assert!(WindowShell::new("big", u32::MAX, u32::MAX).is_ok());
}
