//! Workspace model of a tiling terminal emulator: windows hold tabs, a tab
//! holds a layout tree of terminals, splits and groups of inner tabs.
//! Every operation on the model is verified against a specification over
//! the abstract view of the tree.

pub mod ids;
pub mod keybindings;
pub mod model;
pub mod view;
pub mod layout_spec;
pub mod layout_lemmas;
pub mod node;
pub mod workspace_spec;
pub mod workspace;
pub mod tree_laws;
pub mod laws;
pub mod text;
pub mod drag;
pub mod title_edit;
pub mod window_rules;
pub mod retitle;
