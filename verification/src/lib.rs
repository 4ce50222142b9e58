//! Verified core of a UI bridge: which watched files feed which markup URIs and
//! what a change on disk makes stale, and which clip polygons to write to which
//! views.
//!
//! - [`hot_reload`] keeps the registered files and decides what to re-read;
//! - [`event`] says which change notifications count;
//! - [`xaml`] is the registry that re-read bytes go into;
//! - [`clip`] holds the clip polygons and decides when they are written;
//! - [`path`] and [`table`] are the data types underneath;
//! - [`laws`] states what holds of hot-reload as a whole.

pub mod clip;
pub mod event;
pub mod hot_reload;
pub mod laws;
pub mod path;
pub mod table;
pub mod xaml;
