//! Terminal panes: the layout that splits a window between them, the focus that
//! moves from one to another, and what the window around them decides.
pub mod binary32;
pub mod border_laws;
pub mod bounds;
pub mod config;
pub mod config_update;
pub mod cursor;
pub mod decision_laws;
pub mod drag_laws;
pub mod exact_laws;
pub mod geometry_laws;
pub mod layout;
pub mod layout_laws;
pub mod manager;
pub mod manager_laws;
pub mod path_laws;
pub mod placement_laws;
pub mod ref_test;
pub mod rounding;
pub mod search;
pub mod size;
pub mod size_laws;
pub mod state_laws;
pub mod tree_laws;
pub mod window_context;
pub mod window_laws;
