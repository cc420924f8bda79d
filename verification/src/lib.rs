//! Rove: the logic of a dual-pane file explorer, with its contracts.

pub mod text;
pub mod size;
pub mod base64;
pub mod paths;
pub mod copies;
pub mod order;
pub mod entries;
pub mod drives;
pub mod clipboard;
pub mod fsplan;
pub mod paste;
pub mod tree;
pub mod watch;
pub mod rename;
pub mod icons;
pub mod win_clipboard;
pub mod fsmodel;
