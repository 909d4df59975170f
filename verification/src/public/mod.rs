//! The public tree: files and directories whose content addresses are open.

pub mod codec;
pub mod directory;
pub mod history;
pub mod in_order;
pub mod merge;
pub mod node;
pub mod path;
