//! Core of a filesystem-watching daemon: persona rule matching, the
//! persisted registry of watched codebases, the supervisor's task
//! bookkeeping, the control-plane protocol, and the chronicle encoding.
//!
//! Everything here is verified. The surrounding process (signal handling,
//! sockets, the OS watcher, the async runtime) lives outside the library
//! and only hands plain values in and out.

pub mod codec;
pub mod config;
pub mod control;
pub mod errors;
pub mod persona;
pub mod patterns;
pub mod state;
pub mod supervisor;
pub mod text;
pub mod users;
pub mod watch;
