//! Grouped environment-variable configurations: the data model, the rules
//! that edit, merge, check and list them, and the pure parts of applying them.

pub mod strmap;
pub mod text;
pub mod model;
pub mod messages;
pub mod editing;
pub mod sorting;
pub mod listing;
pub mod checks;
pub mod variables;
pub mod merge;
pub mod storage;
pub mod transfer;
pub mod apply;
pub mod recent;
pub mod platform;
pub mod shell;
pub mod launchctl;
pub mod tray;
pub mod logs;
pub mod appliers;
pub mod laws;
pub mod lite;
pub mod idea;
