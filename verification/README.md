# terminator2

The workspace model of a tiling terminal emulator, verified with Verus.

A workspace holds windows; a window holds top-level tabs; a tab holds a
layout tree whose leaves are terminals, whose inner nodes are splits
(horizontal or vertical) and groups of inner tabs. The library splits and
closes terminals, adds and closes tabs and inner tabs, moves terminals
between them, finds the neighbour of a terminal in a direction, and keeps
the titles that follow the terminals up to date.

Layout:

- `src/` — the verified library. `model.rs`, `node.rs`, `workspace.rs` hold
  the data and its operations; `view.rs`, `layout_spec.rs` and
  `workspace_spec.rs` state what they compute over an abstract view of the
  tree; `layout_lemmas.rs`, `tree_laws.rs` and `laws.rs` hold the proofs and
  the laws (well-formedness is kept by every operation, closing a split's new
  terminal gives the terminals back, neighbours after a split, ...).
  `keybindings.rs`, `text.rs`, `drag.rs`, `title_edit.rs`, `window_rules.rs`
  and `retitle.rs` hold the smaller rules the windows follow.
- `tests/` — tests of the library.
- `app/` — the GTK 4 / VTE application around the library.
