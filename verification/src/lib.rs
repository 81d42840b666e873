//! Verified core of a process, port and file-lock inspection tool.
pub mod numfmt;
pub mod text;
pub mod net;
pub mod platform;
pub mod paths;
pub mod linux;
pub mod windows;
pub mod console;
pub mod proc;
pub mod commands;
