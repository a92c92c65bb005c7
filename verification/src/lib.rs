//! Membridge: a deterministic, read-only bridge between process-memory sources
//! (Windows minidumps and live processes) and bounded scan, inspection, and read
//! workflows. This crate holds the verified logic; the command-line program lives
//! beside it.

pub mod capture;
pub mod cli;
pub mod error;
pub mod protocol;
pub mod scan;
pub mod skill;
pub mod source;
pub mod text;

pub use error::{Error, Result};
