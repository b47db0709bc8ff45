# lath

A retained-mode GUI library built around a flat widget arena, with its
structural core written in Verus and proved.

## Layout

- `src/arena.rs` — `WidgetId`, the structural `Widget` trait and `UiArena`:
  spawning, lookup, the root, live counts, depth-first and breadth-first
  traversals, and `walk_ends`, which decides whether a walk terminates.
- `src/walk.rs` — the lemmas behind the traversal proofs.
- `src/layout.rs` — `LayoutState`, the frame of every laid-out widget.
- `src/events.rs` — `hit_candidates`, the front-to-back hit test, and
  `deliver_click`, which offers a click to the candidates until one handles it.
- `src/shell.rs` — `MouseButton`, `WindowShell`, the shell's event
  decisions (`ShellState::step`) and the frame-buffer conversions.
- `src/laws.rs` — properties that span several functions.
- `app/` — the floating-point geometry and layout solver, the concrete
  widgets (`Button`, `Column`, `Container`, `Label`), text rendering, the
  message channel, and the winit/softbuffer/tiny-skia platform loop.
