//! Verified core of a desktop "zone" launcher: configuration parsing,
//! directory listing order, zone navigation and icon pixel handling.

pub mod text;
pub mod config;
pub mod listing;
pub mod nav;
pub mod pixels;
pub mod shortcuts;
pub mod search;
