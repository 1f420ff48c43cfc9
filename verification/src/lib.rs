//! A poll-based inventory of operating-system processes with a CPU-usage
//! estimator, a parent/child tree builder and a privilege-checked dispatcher
//! for control operations. The library decides and computes; the host that
//! embeds it talks to the operating system and hands plain values in and out.

pub mod manager;
pub mod platform;
pub mod process;
pub mod text;
pub mod user;
