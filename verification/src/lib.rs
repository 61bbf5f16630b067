//! The verified core of Nectan, a tool that finds devices nearby and sends files
//! between them.

pub mod assoc;
pub mod binary64;
pub mod code_lookup;
pub mod common;
pub mod crypto;
pub mod devices;
pub mod format;
pub mod item_io;
pub mod messages;
pub mod path;
pub mod path_tree;
pub mod protocol;
pub mod queue;
pub mod storage_utils;
pub mod tabs;
pub mod text;
pub mod transfers;
pub mod tree_codec;
pub mod tree_entries;
pub mod tree_laws;
pub mod tree_lossy;
pub mod tree_model;
pub mod tree_places;
pub mod ui;
pub mod walker;
pub mod windows;
pub mod wire;
