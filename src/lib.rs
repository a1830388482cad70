//! Snapshot version lookup and roll-forward planning for copy-on-write filesystems.

pub mod config;
pub mod date;
pub mod deleted;
pub mod diff;
pub mod display;
pub mod hard_links;
pub mod mounts;
pub mod path;
pub mod resolve;
pub mod roll_forward;
pub mod text;
pub mod utility;
pub mod versions;
