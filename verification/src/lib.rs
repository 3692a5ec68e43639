//! The logic of a file watcher that is driven by illumos event ports.
//!
//! The watcher keeps a table of watched paths ([`watchers`]), fills it by walking over the project
//! ([`walk`]), and takes the port's events one after the other ([`event_loop`]); a directory that
//! was modified is rescanned ([`rescan`]). What happened to which path is gathered in a buffer
//! ([`file_data`], [`shared_data`]) until the next synchronisation. Nothing here touches the port
//! or the file system: each state machine says what is to be done, and is handed what came of it
//! ([`port`]).
pub mod cookie;
pub mod event;
pub mod event_loop;
pub mod file_data;
pub mod path;
pub mod port;
pub mod rescan;
pub mod rescan_run;
pub mod shared_data;
pub mod temporary;
pub mod walk;
pub mod watchers;
