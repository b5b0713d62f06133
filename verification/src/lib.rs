//! Incremental GPU draw pipeline for a terminal-emulator renderer.
//!
//! A per-frame tree of declarative drawing commands is turned into vertex
//! data for depth-ordered quad arenas, while regions whose content has not
//! changed are replayed from the previous frame's retained buffers instead
//! of being re-executed.

pub mod arena;
pub mod command;
pub mod continuity;
pub mod draw;
pub mod executor;
pub mod frame;
pub mod hashcons;
pub mod observers;
pub mod optics;
pub mod plan;
pub mod prevcursor;
pub mod settings;
pub mod spawn;
pub mod termwindow;
pub mod version;
