//! The menus that an editor opens at the cursor.
pub mod code_actions_menu;
pub mod code_context_menus;
pub mod completion_menu;
pub mod menu_selection;
