//! Process sandboxing policy, and the platform's trust anchors.
//!
//! The policy itself (which system calls a content process may never make,
//! and the filter program that enforces it) is computed here; installing it
//! into a process is a pair of system calls made by the program that spawns
//! the process.
pub mod seccomp;
pub mod roots;
