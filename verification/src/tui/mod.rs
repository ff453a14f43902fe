//! The interactive interface: its state, its keys and what it shows.
pub mod app;
pub mod clipboard;
pub mod export;
pub mod keys;
pub mod probe;
pub mod theme;
pub mod view;
