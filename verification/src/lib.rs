//! Verified core of the i3More desktop tools: a D-Bus wire-format codec
//! (`linbus`) and the decision logic of the bar, launcher, audio, lock and
//! notification utilities.

pub mod text;
pub mod linbus;
pub mod audio;
pub mod fa;
pub mod icon;
pub mod launcher;
pub mod i3tree;
pub mod sorting;
pub mod auto_unmax;
pub mod layout_cmd;
pub mod mru;
pub mod model;
pub mod sequencer;
pub mod renames;
pub mod notify;
pub mod lock;
pub mod speech;
pub mod keyhint;
pub mod ipc;
pub mod devices;
pub mod panel;
pub mod icon_cache;
pub mod placement;
pub mod navigator;
pub mod bar;
