//! Input tracking and camera-control decisions for an interactive 3D viewer.
//!
//! `key` records the per-frame state of each keyboard key, `controls` maps the
//! keys that are held down to camera actions in a fixed order, and `fetch`
//! builds the addresses of remote assets.

pub mod key;
pub mod controls;
pub mod fetch;
