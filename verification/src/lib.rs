//! Cursor theme model: Xcursor and Windows cursor decoding, resampling,
//! Xcursor export, theme browsing, trial and import planning, settings
//! change control.
pub mod model;
pub mod xcursor;
pub mod export;
pub mod resize;
pub mod text;
pub mod paths;
pub mod settings;
pub mod browser;
pub mod catalog;
pub mod current_cursor;
pub mod trial;
pub mod windows;
pub mod import;
pub mod index;
pub mod cache;
pub mod platform;
pub mod classification;
pub mod evidence;
pub mod install;
