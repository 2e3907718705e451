# alacritty_panes

Terminal panes: how a window is split between them, which one has focus, how
large their terminals are, and what the window does about events and changes of
its configuration. The library, in `src/`, is proved with Verus.

- `src/rounding.rs` and `src/binary32.rs`: single-precision arithmetic on
  integers, proved to round to nearest with ties to even. Positions and ratios
  are such numbers, so rounding is part of what is proved of them.
- `src/bounds.rs` and `src/layout.rs`: rectangles, and the tree of splits.
- `src/size.rs` and `src/config.rs`: sizes of windows and terminals, and the
  configuration of panes.
- `src/manager.rs`: the panes of one window.
- `src/window_context.rs`, with `cursor.rs`, `config_update.rs`, `search.rs` and
  `ref_test.rs`: what a window decides from one step of its event loop to the
  next.
- `src/layout_laws.rs`, `src/path_laws.rs`, `src/placement_laws.rs`,
  `src/manager_laws.rs` and `src/window_laws.rs`: what holds across these
  operations.

One call of the library is trusted instead: the size of a recorded terminal is
serialized by `serde_json`, in `src/ref_test.rs`.

Around the library, `app/` holds the terminals, displays, timers and files. It is
ordinary Rust, and nothing of it is verified.
