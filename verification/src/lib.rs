pub mod text;
pub mod path;
pub mod json;
pub mod pathset;
pub mod rows;
pub mod command;
pub mod tui;
pub mod laws;
pub mod tree_laws;
pub mod session_laws;
pub mod key_laws;
